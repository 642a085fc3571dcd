//! Cave culling: which chunks can be seen from the camera's chunk, found by walking
//! through chunks along their visibility graphs.

use crate::terrain::block::BlockId;
use crate::terrain::chunk::connections::{bit_set, connection_index_spec, faces_connected, ChunkConnections};
use crate::terrain::position_types::ChunkPosition;
use crate::util::face::{face_normal, face_normal_spec, FaceIndex};
use crate::util::size::Size3;
use crate::util::vector::{IVec3, UVec3};
use vstd::prelude::*;

verus! {

/// The chunks of a load area's box, with what the search needs to know of each: its
/// visibility graph if it is loaded, and whether it is within the view frustum. Both
/// tables are indexed by the grid cell `size.flatten(pos - corner)`.
pub struct SearchGrid<'a> {
    pub corner: ChunkPosition,
    pub size: Size3,
    pub connections: &'a [Option<ChunkConnections>],
    pub in_frustum: &'a [bool],
}

impl<'a> SearchGrid<'a> {
    /// Tables of one entry per chunk of the box.
    pub open spec fn wf(&self) -> bool {
        &&& self.size.wf()
        &&& self.connections@.len() == self.size.product_spec()
        &&& self.in_frustum@.len() == self.size.product_spec()
    }

    /// `c` lies in the box.
    pub open spec fn contains(&self, c: ChunkPosition) -> bool {
        &&& 0 <= c.0.x - self.corner.0.x < self.size.x
        &&& 0 <= c.0.y - self.corner.0.y < self.size.y
        &&& 0 <= c.0.z - self.corner.0.z < self.size.z
    }

    /// The grid cell of `c`.
    pub open spec fn cell(&self, c: ChunkPosition) -> int {
        self.size.flatten_spec(
            c.0.x - self.corner.0.x,
            c.0.y - self.corner.0.y,
            c.0.z - self.corner.0.z,
        )
    }

    /// `c` is loaded.
    pub open spec fn loaded(&self, c: ChunkPosition) -> bool {
        self.contains(c) && self.connections@[self.cell(c)] is Some
    }

    /// `c` is within the view frustum.
    pub open spec fn visible(&self, c: ChunkPosition) -> bool {
        self.contains(c) && self.in_frustum@[self.cell(c)]
    }

    /// The visibility graph of `c`.
    pub open spec fn graph(&self, c: ChunkPosition) -> ChunkConnections {
        self.connections@[self.cell(c)]->0
    }
}

/// The chunk next to `c` across face `dir`.
pub open spec fn step_spec(c: ChunkPosition, dir: int) -> ChunkPosition {
    let n = face_normal_spec(dir);
    ChunkPosition(IVec3 { x: (c.0.x + n.x) as i32, y: (c.0.y + n.y) as i32, z: (c.0.z + n.z) as i32 })
}

/// The chunk next to `c` across face `dir` has coordinates that fit in an `i32`.
pub open spec fn step_fits(c: ChunkPosition, dir: int) -> bool {
    let n = face_normal_spec(dir);
    &&& i32::MIN <= c.0.x + n.x <= i32::MAX
    &&& i32::MIN <= c.0.y + n.y <= i32::MAX
    &&& i32::MIN <= c.0.z + n.z <= i32::MAX
}

/// The search may go from chunk `c`, entered across face `last_dir`, on across face
/// `dir`: from the camera's chunk in every direction; from any other chunk only away
/// from the camera, and only if `c` connects the face it was entered by with the face
/// it is left by.
pub open spec fn may_step(grid: SearchGrid, camera: ChunkPosition, c: ChunkPosition, last_dir: Option<int>, dir: int) -> bool {
    may_step_with(grid.graph(c), camera, c, last_dir, dir)
}

/// [`may_step`] for a chunk `c` whose visibility graph is `graph`.
pub open spec fn may_step_with(
    graph: ChunkConnections,
    camera: ChunkPosition,
    c: ChunkPosition,
    last_dir: Option<int>,
    dir: int,
) -> bool {
    match last_dir {
        None => true,
        Some(ld) => {
            let n = face_normal_spec(dir);
            let l = face_normal_spec(ld);
            let s = IVec3 { x: (n.x + l.x) as i32, y: (n.y + l.y) as i32, z: (n.z + l.z) as i32 };
            &&& s.x * (camera.0.x - c.0.x) + s.y * (camera.0.y - c.0.y) + s.z * (camera.0.z - c.0.z) < 0
            &&& bit_set(graph.0, connection_index_spec(dir, (ld + 3) % 6))
        },
    }
}

/// Moving across face `dir` from a chunk entered across face `ld` heads away from the
/// camera at `camera`: the two steps together move away from it.
pub open spec fn heads_away(camera: ChunkPosition, c: ChunkPosition, ld: int, dir: int) -> bool {
    let n = face_normal_spec(dir);
    let l = face_normal_spec(ld);
    (n.x + l.x) * (camera.0.x - c.0.x) + (n.y + l.y) * (camera.0.y - c.0.y) + (n.z + l.z) * (camera.0.z - c.0.z) < 0
}

/// The search leaves a chunk the way light would cross it: leaving a chunk entered across
/// face `ld` (moving in direction `ld`), across face `dir` and away from the camera, is
/// allowed exactly when the chunk's blocks connect face `dir` with the face it was
/// entered by, the one opposite `ld`.
pub proof fn lemma_step_follows_entry_face(
    blocks: Seq<BlockId>,
    graph: ChunkConnections,
    camera: ChunkPosition,
    c: ChunkPosition,
    ld: int,
    dir: int,
)
    requires
        blocks.len() == 32768,
        forall|a: int, b: int|
            0 <= a < 6 && 0 <= b < 6 && a != b ==> (bit_set(graph.0, connection_index_spec(a, b))
                <==> faces_connected(blocks, a, b)),
        !bit_set(graph.0, 15),
        0 <= ld < 6,
        0 <= dir < 6,
        heads_away(camera, c, ld, dir),
    ensures
        may_step_with(graph, camera, c, Some(ld), dir) <==> ({
            let entry = FaceIndex(ld as usize).opposite_spec().0 as int;
            dir != entry && faces_connected(blocks, dir, entry)
        }),
{
    let entry = FaceIndex(ld as usize).opposite_spec().0 as int;
    crate::terrain::chunk::connections::lemma_connections_law(blocks, graph, dir, entry);
    let n = face_normal_spec(dir);
    let l = face_normal_spec(ld);
    let sv = IVec3 { x: (n.x + l.x) as i32, y: (n.y + l.y) as i32, z: (n.z + l.z) as i32 };
    assert(-2 <= n.x + l.x <= 2 && -2 <= n.y + l.y <= 2 && -2 <= n.z + l.z <= 2) by {
        if dir == 0 {} else if dir == 1 {} else if dir == 2 {} else if dir == 3 {} else if dir == 4 {} else {}
        if ld == 0 {} else if ld == 1 {} else if ld == 2 {} else if ld == 3 {} else if ld == 4 {} else {}
    }
    assert(sv.x == n.x + l.x && sv.y == n.y + l.y && sv.z == n.z + l.z);
}

/// Entry `k` of `order` was reached from entry `j` in one allowed step, across the
/// face recorded for it in `dirs`.
pub open spec fn reached_from(
    grid: SearchGrid,
    camera: ChunkPosition,
    order: Seq<ChunkPosition>,
    dirs: Seq<Option<int>>,
    k: int,
    j: int,
) -> bool {
    &&& dirs[k] is Some
    &&& 0 <= dirs[k]->0 < 6
    &&& order[k] == step_spec(order[j], dirs[k]->0)
    &&& may_step(grid, camera, order[j], dirs[j], dirs[k]->0)
}

/// Every entry of `order` after the first was reached from an earlier one in one
/// allowed step.
pub open spec fn all_reached(
    grid: SearchGrid,
    camera: ChunkPosition,
    order: Seq<ChunkPosition>,
    dirs: Seq<Option<int>>,
) -> bool {
    forall|k: int| 0 < k < order.len() ==> #[trigger] reached_earlier(grid, camera, order, dirs, k)
}

/// Entry `k` of `order` was reached from an earlier entry in one allowed step.
pub open spec fn reached_earlier(
    grid: SearchGrid,
    camera: ChunkPosition,
    order: Seq<ChunkPosition>,
    dirs: Seq<Option<int>>,
    k: int,
) -> bool {
    exists|j: int| 0 <= j < k && #[trigger] reached_from(grid, camera, order, dirs, k, j)
}

/// `order` lists distinct loaded chunks starting at the camera's chunk, each later one
/// visible and reached in one allowed step from an earlier one, and it is closed: every
/// loaded and visible chunk one allowed step from a listed chunk is listed.
pub open spec fn search_result(
    grid: SearchGrid,
    camera: ChunkPosition,
    order: Seq<ChunkPosition>,
    dirs: Seq<Option<int>>,
) -> bool {
    &&& dirs.len() == order.len()
    &&& order.len() > 0
    &&& order[0] == camera
    &&& dirs[0] is None
    &&& forall|k: int| 0 <= k < order.len() ==> grid.loaded(#[trigger] order[k])
    &&& forall|k: int| 0 < k < order.len() ==> grid.visible(#[trigger] order[k])
    &&& forall|k1: int, k2: int| 0 <= k1 < k2 < order.len() ==> #[trigger] order[k1] != #[trigger] order[k2]
    &&& all_reached(grid, camera, order, dirs)
    &&& forall|j: int, d: int|
        0 <= j < order.len() && 0 <= d < 6 && #[trigger] may_step(grid, camera, order[j], dirs[j], d)
            && step_fits(order[j], d) && grid.loaded(step_spec(order[j], d)) && grid.visible(step_spec(order[j], d)) ==> order.contains(
            step_spec(order[j], d),
        )
}

/// Step `a` (face `a.1` of entry `a.0`) is taken before step `b` in the search.
pub open spec fn step_before(a: (int, int), b: (int, int)) -> bool {
    a.0 < b.0 || (a.0 == b.0 && a.1 < b.1)
}

/// Entry `k` of `order` was queued by the allowed step `parents[k]` from an earlier
/// entry, across the face recorded for it in `dirs`, and no allowed step taken before
/// that one leads to it.
pub open spec fn first_reached(
    grid: SearchGrid,
    camera: ChunkPosition,
    order: Seq<ChunkPosition>,
    dirs: Seq<Option<int>>,
    parents: Seq<(int, int)>,
    k: int,
) -> bool {
    let j = parents[k].0;
    let d = parents[k].1;
    &&& 0 <= j < k
    &&& 0 <= d < 6
    &&& dirs[k] == Some(d)
    &&& order[k] == step_spec(order[j], d)
    &&& may_step(grid, camera, order[j], dirs[j], d)
    &&& forall|j2: int, d2: int|
        0 <= j2 < order.len() && 0 <= d2 < 6 && step_before((j2, d2), parents[k]) && #[trigger] may_step(
            grid,
            camera,
            order[j2],
            dirs[j2],
            d2,
        ) && step_fits(order[j2], d2) ==> step_spec(order[j2], d2) != order[k]
}

/// `order` is in breadth-first order: each entry after the first is queued by the first
/// allowed step that leads to it, and entries come in the order of those steps.
pub open spec fn breadth_first(
    grid: SearchGrid,
    camera: ChunkPosition,
    order: Seq<ChunkPosition>,
    dirs: Seq<Option<int>>,
    parents: Seq<(int, int)>,
) -> bool {
    &&& parents.len() == order.len()
    &&& forall|k: int| 0 < k < order.len() ==> #[trigger] first_reached(grid, camera, order, dirs, parents, k)
    &&& forall|k1: int, k2: int|
        0 < k1 < k2 < order.len() ==> step_before(#[trigger] parents[k1], #[trigger] parents[k2])
}

/// The search is in breadth-first order, and every step that queued an entry was taken
/// before step `(s, d)`.
#[verifier::opaque]
spec fn bfs_state(
    grid: SearchGrid,
    camera: ChunkPosition,
    order: Seq<ChunkPosition>,
    dirs: Seq<Option<int>>,
    parents: Seq<(int, int)>,
    s: int,
    d: int,
) -> bool {
    &&& breadth_first(grid, camera, order, dirs, parents)
    &&& forall|k: int| 0 < k < order.len() ==> step_before(#[trigger] parents[k], (s, d))
}

/// The search starts in breadth-first order.
proof fn lemma_bfs_init(grid: SearchGrid, camera: ChunkPosition)
    ensures
        bfs_state(grid, camera, seq![camera], seq![None], seq![(0int, 0int)], 0, 0),
{
    reveal(bfs_state);
}

/// Moving on to a later step keeps the search in breadth-first order.
proof fn lemma_bfs_advance(
    grid: SearchGrid,
    camera: ChunkPosition,
    order: Seq<ChunkPosition>,
    dirs: Seq<Option<int>>,
    parents: Seq<(int, int)>,
    s: int,
    d: int,
    s2: int,
    d2: int,
)
    requires
        bfs_state(grid, camera, order, dirs, parents, s, d),
        s < s2 || (s == s2 && d <= d2),
    ensures
        bfs_state(grid, camera, order, dirs, parents, s2, d2),
{
    reveal(bfs_state);
}

/// The search ends in breadth-first order.
proof fn lemma_bfs_done(
    grid: SearchGrid,
    camera: ChunkPosition,
    order: Seq<ChunkPosition>,
    dirs: Seq<Option<int>>,
    parents: Seq<(int, int)>,
    s: int,
    d: int,
)
    requires
        bfs_state(grid, camera, order, dirs, parents, s, d),
    ensures
        breadth_first(grid, camera, order, dirs, parents),
{
    reveal(bfs_state);
}

/// Queueing the chunk that step `(s, d)` leads to, unseen so far, keeps the search in
/// breadth-first order: every earlier allowed step led to a chunk already seen.
proof fn lemma_bfs_push(
    grid: SearchGrid,
    camera: ChunkPosition,
    order0: Seq<ChunkPosition>,
    dirs0: Seq<Option<int>>,
    cells0: Seq<int>,
    seen0: Seq<bool>,
    parents0: Seq<(int, int)>,
    s: int,
    d: int,
    next: ChunkPosition,
)
    requires
        search_state(grid, camera, order0, dirs0, cells0, seen0, s),
        bfs_state(grid, camera, order0, dirs0, parents0, s, d),
        0 <= s < order0.len(),
        0 <= d < 6,
        may_step(grid, camera, order0[s], dirs0[s], d),
        step_fits(order0[s], d),
        next == step_spec(order0[s], d),
        grid.contains(next),
        !seen0[grid.cell(next)],
        forall|d2: int|
            0 <= d2 < d && #[trigger] may_step(grid, camera, order0[s], dirs0[s], d2) && step_fits(order0[s], d2)
                && grid.contains(step_spec(order0[s], d2)) ==> seen0[grid.cell(step_spec(order0[s], d2))],
    ensures
        bfs_state(grid, camera, order0.push(next), dirs0.push(Some(d)), parents0.push((s, d)), s, d + 1),
{
    reveal(bfs_state);
    reveal(search_core);
    let order1 = order0.push(next);
    let dirs1 = dirs0.push(Some(d));
    let parents1 = parents0.push((s, d));
    let n = order0.len() as int;
    assert forall|k: int| 0 < k < order1.len() implies #[trigger] first_reached(grid, camera, order1, dirs1, parents1, k) by {
        if k < n {
            assert(first_reached(grid, camera, order0, dirs0, parents0, k));
            assert(parents1[k] == parents0[k]);
            let j = parents0[k].0;
            assert(order1[j] == order0[j] && dirs1[j] == dirs0[j]);
            assert(order1[k] == order0[k] && dirs1[k] == dirs0[k]);
            assert forall|j2: int, d2: int|
                0 <= j2 < order1.len() && 0 <= d2 < 6 && step_before((j2, d2), parents1[k]) && #[trigger] may_step(
                    grid,
                    camera,
                    order1[j2],
                    dirs1[j2],
                    d2,
                ) && step_fits(order1[j2], d2) implies step_spec(order1[j2], d2) != order1[k] by {
                assert(order1[j2] == order0[j2] && dirs1[j2] == dirs0[j2]);
            }
        } else {
            assert(order1[s] == order0[s] && dirs1[s] == dirs0[s]);
            assert(order1[k] == next);
            assert forall|j2: int, d2: int|
                0 <= j2 < order1.len() && 0 <= d2 < 6 && step_before((j2, d2), parents1[k]) && #[trigger] may_step(
                    grid,
                    camera,
                    order1[j2],
                    dirs1[j2],
                    d2,
                ) && step_fits(order1[j2], d2) implies step_spec(order1[j2], d2) != order1[k] by {
                assert(order1[j2] == order0[j2] && dirs1[j2] == dirs0[j2]);
                let t = step_spec(order0[j2], d2);
                if grid.contains(t) {
                    if j2 < s {
                        assert(may_step(grid, camera, order0[j2], dirs0[j2], d2));
                        assert(seen0[grid.cell(t)]);
                    } else {
                        assert(may_step(grid, camera, order0[s], dirs0[s], d2));
                        assert(seen0[grid.cell(t)]);
                    }
                }
            }
        }
    }
    assert forall|k1: int, k2: int| 0 < k1 < k2 < order1.len() implies step_before(#[trigger] parents1[k1], #[trigger] parents1[k2]) by {
        assert(parents1[k1] == parents0[k1]);
        if k2 < n {
            assert(parents1[k2] == parents0[k2]);
        }
    }
    assert forall|k: int| 0 < k < order1.len() implies step_before(#[trigger] parents1[k], (s, d + 1)) by {
        if k < n {
            assert(parents1[k] == parents0[k]);
        }
    }
}

/// Every chunk of the box has a cell within the tables.
proof fn lemma_cells_in_range(grid: SearchGrid)
    ensures
        forall|c: ChunkPosition| grid.contains(c) ==> 0 <= #[trigger] grid.cell(c) < grid.size.product_spec(),
{
    assert forall|c: ChunkPosition| grid.contains(c) implies 0 <= #[trigger] grid.cell(c) < grid.size.product_spec() by {
        crate::util::size::lemma_flatten_bound(
            grid.size.x as int,
            grid.size.y as int,
            grid.size.z as int,
            c.0.x - grid.corner.0.x,
            c.0.y - grid.corner.0.y,
            c.0.z - grid.corner.0.z,
        );
    }
}

/// The grid cell of `c`, if it lies in the box.
fn cell_of(grid: &SearchGrid, c: ChunkPosition) -> (r: Option<usize>)
    requires
        grid.wf(),
    ensures
        r is Some <==> grid.contains(c),
        r matches Some(i) ==> i == grid.cell(c) && i < grid.size.product_spec(),
{
    let dx = c.0.x as i64 - grid.corner.0.x as i64;
    let dy = c.0.y as i64 - grid.corner.0.y as i64;
    let dz = c.0.z as i64 - grid.corner.0.z as i64;
    if 0 <= dx && dx < grid.size.x as i64 && 0 <= dy && dy < grid.size.y as i64 && 0 <= dz && dz
        < grid.size.z as i64 {
        Some(grid.size.flatten(UVec3 { x: dx as u32, y: dy as u32, z: dz as u32 }))
    } else {
        None
    }
}

/// The chunk next to `c` across face `dir`, if its coordinates fit in an `i32`.
fn step_chunk(c: ChunkPosition, dir: usize) -> (r: Option<ChunkPosition>)
    requires
        dir < 6,
    ensures
        r is Some <==> step_fits(c, dir as int),
        r matches Some(p) ==> p == step_spec(c, dir as int),
{
    let n = face_normal(dir);
    let x = c.0.x as i64 + n.x as i64;
    let y = c.0.y as i64 + n.y as i64;
    let z = c.0.z as i64 + n.z as i64;
    if i32::MIN as i64 <= x && x <= i32::MAX as i64 && i32::MIN as i64 <= y && y <= i32::MAX as i64
        && i32::MIN as i64 <= z && z <= i32::MAX as i64 {
        Some(ChunkPosition(IVec3 { x: x as i32, y: y as i32, z: z as i32 }))
    } else {
        None
    }
}

/// Whether the search may go on from `step`, entered across face `last_dir`, across
/// face `dir`, given the visibility graph of `step`.
fn step_allowed(
    camera: ChunkPosition,
    step: ChunkPosition,
    last_dir: Option<usize>,
    graph: ChunkConnections,
    dir: usize,
) -> (r: bool)
    requires
        dir < 6,
        last_dir matches Some(l) ==> l < 6,
    ensures
        r == may_step_with(graph, camera, step, dir_int(last_dir), dir as int),
{
    match last_dir {
        // explore all neighbours of the first chunk
        None => true,
        Some(l) => {
            // vector pointing towards the camera
            let to_camera_x = camera.0.x as i64 - step.0.x as i64;
            let to_camera_y = camera.0.y as i64 - step.0.y as i64;
            let to_camera_z = camera.0.z as i64 - step.0.z as i64;
            // only travel away from the camera
            let nd = face_normal(dir);
            let nl = face_normal(l);
            let sx = nd.x as i64 + nl.x as i64;
            let sy = nd.y as i64 + nl.y as i64;
            let sz = nd.z as i64 + nl.z as i64;
            proof {
                assert(-2 <= sx <= 2 && -2 <= sy <= 2 && -2 <= sz <= 2);
                assert(-0x2_0000_0000 <= sx * to_camera_x <= 0x2_0000_0000) by (nonlinear_arith)
                    requires
                        -2 <= sx <= 2,
                        -0x1_0000_0000 <= to_camera_x <= 0x1_0000_0000,
                ;
                assert(-0x2_0000_0000 <= sy * to_camera_y <= 0x2_0000_0000) by (nonlinear_arith)
                    requires
                        -2 <= sy <= 2,
                        -0x1_0000_0000 <= to_camera_y <= 0x1_0000_0000,
                ;
                assert(-0x2_0000_0000 <= sz * to_camera_z <= 0x2_0000_0000) by (nonlinear_arith)
                    requires
                        -2 <= sz <= 2,
                        -0x1_0000_0000 <= to_camera_z <= 0x1_0000_0000,
                ;
            }
            let dot = sx * to_camera_x + sy * to_camera_y + sz * to_camera_z;
            // only visit chunks which are connected via the current chunk from the previous
            // face to the current face
            dot < 0 && graph.connected(FaceIndex(dir), FaceIndex(l).opposite())
        },
    }
}

/// Distinct chunks of the box have distinct grid cells.
proof fn lemma_cells_distinct(grid: SearchGrid, a: ChunkPosition, b: ChunkPosition)
    requires
        grid.contains(a),
        grid.contains(b),
        grid.cell(a) == grid.cell(b),
    ensures
        a == b,
{
    crate::util::size::lemma_flatten_injective(
        grid.size,
        a.0.x - grid.corner.0.x,
        a.0.y - grid.corner.0.y,
        a.0.z - grid.corner.0.z,
        b.0.x - grid.corner.0.x,
        b.0.y - grid.corner.0.y,
        b.0.z - grid.corner.0.z,
    );
}

/// A face number as an integer, if any.
pub open spec fn dir_int(d: Option<usize>) -> Option<int> {
    match d {
        Some(x) => Some(x as int),
        None => None,
    }
}

/// Facts of the search state that the loops read directly.
spec fn search_shape(
    grid: SearchGrid,
    order: Seq<ChunkPosition>,
    dirs: Seq<Option<int>>,
    cells: Seq<int>,
    seen: Seq<bool>,
    processed: int,
) -> bool {
    &&& grid.wf()
    &&& seen.len() == grid.size.product_spec()
    &&& order.len() == dirs.len()
    &&& order.len() == cells.len()
    &&& 0 <= processed <= order.len()
    &&& order.len() <= grid.size.product_spec()
    &&& forall|k: int| 0 <= k < order.len() ==> grid.loaded(#[trigger] order[k])
}

/// The rest of the search state: `order` so far, with the cells it occupies; chunks
/// seen are never queued twice, the neighbours of the chunks processed so far are all
/// seen, and every loaded, visible chunk seen is queued.
#[verifier::opaque]
spec fn search_core(
    grid: SearchGrid,
    camera: ChunkPosition,
    order: Seq<ChunkPosition>,
    dirs: Seq<Option<int>>,
    cells: Seq<int>,
    seen: Seq<bool>,
    processed: int,
) -> bool {
    &&& order.len() > 0
    &&& order[0] == camera
    &&& dirs[0] is None
    &&& forall|k: int|
        0 <= k < order.len() ==> #[trigger] cells[k] == grid.cell(order[k]) && 0 <= cells[k] < grid.size.product_spec()
            && seen[cells[k]]
    &&& forall|k: int| 0 < k < order.len() ==> grid.visible(#[trigger] order[k])
    &&& cells.no_duplicates()
    &&& forall|k1: int, k2: int| 0 <= k1 < k2 < order.len() ==> #[trigger] order[k1] != #[trigger] order[k2]
    &&& all_reached(grid, camera, order, dirs)
    &&& forall|j: int, d: int|
        0 <= j < processed && 0 <= d < 6 && #[trigger] may_step(grid, camera, order[j], dirs[j], d)
            && step_fits(order[j], d) && grid.contains(step_spec(order[j], d)) ==> seen[grid.cell(step_spec(order[j], d))]
    &&& forall|c: ChunkPosition|
        grid.contains(c) && #[trigger] seen[grid.cell(c)] && grid.loaded(c) && (grid.visible(c) || c == camera) ==> order.contains(c)
}

/// The state of the search after `processed` entries of `order` were visited.
spec fn search_state(
    grid: SearchGrid,
    camera: ChunkPosition,
    order: Seq<ChunkPosition>,
    dirs: Seq<Option<int>>,
    cells: Seq<int>,
    seen: Seq<bool>,
    processed: int,
) -> bool {
    &&& search_shape(grid, order, dirs, cells, seen, processed)
    &&& search_core(grid, camera, order, dirs, cells, seen, processed)
}

/// The queue holds at most one chunk per cell of the box.
proof fn lemma_queue_bounded(cells: Seq<int>, n: int)
    requires
        cells.no_duplicates(),
        forall|k: int| 0 <= k < cells.len() ==> 0 <= #[trigger] cells[k] < n,
        0 <= n,
    ensures
        cells.len() <= n,
{
    cells.unique_seq_to_set();
    vstd::set_lib::lemma_int_range(0, n);
    assert(cells.to_set().subset_of(vstd::set_lib::set_int_range(0, n)));
    vstd::set_lib::lemma_len_subset(cells.to_set(), vstd::set_lib::set_int_range(0, n));
}

/// The search starts with the camera's chunk queued and seen, and nothing else seen.
proof fn lemma_search_init(
    grid: SearchGrid,
    camera: ChunkPosition,
    seen0: Seq<bool>,
    seen: Seq<bool>,
)
    requires
        grid.wf(),
        grid.loaded(camera),
        seen0.len() == grid.size.product_spec(),
        forall|i: int| 0 <= i < seen0.len() ==> !#[trigger] seen0[i],
        seen == seen0.update(grid.cell(camera), true),
    ensures
        search_state(grid, camera, seq![camera], seq![None], seq![grid.cell(camera)], seen, 0),
{
    reveal(search_core);
    lemma_cells_in_range(grid);
    let order = seq![camera];
    let dirs: Seq<Option<int>> = seq![None];
    assert forall|c: ChunkPosition|
        grid.contains(c) && #[trigger] seen[grid.cell(c)] && grid.loaded(c) && (grid.visible(c) || c == camera) implies order.contains(c) by {
        if grid.cell(c) != grid.cell(camera) {
            assert(seen[grid.cell(c)] == seen0[grid.cell(c)]);
        } else {
            lemma_cells_distinct(grid, c, camera);
            assert(order[0] == c);
        }
    }
    assert(all_reached(grid, camera, order, dirs));
}

/// Once every neighbour of entry `processed` is seen, that entry counts as processed.
proof fn lemma_search_advance(
    grid: SearchGrid,
    camera: ChunkPosition,
    order: Seq<ChunkPosition>,
    dirs: Seq<Option<int>>,
    cells: Seq<int>,
    seen: Seq<bool>,
    processed: int,
)
    requires
        search_state(grid, camera, order, dirs, cells, seen, processed),
        processed < order.len(),
        forall|d: int|
            0 <= d < 6 && #[trigger] may_step(grid, camera, order[processed], dirs[processed], d)
                && step_fits(order[processed], d) && grid.contains(step_spec(order[processed], d))
                ==> seen[grid.cell(step_spec(order[processed], d))],
    ensures
        search_state(grid, camera, order, dirs, cells, seen, processed + 1),
{
    reveal(search_core);
}

/// When every entry is processed, the queue is the search's result.
proof fn lemma_search_done(
    grid: SearchGrid,
    camera: ChunkPosition,
    order: Seq<ChunkPosition>,
    dirs: Seq<Option<int>>,
    cells: Seq<int>,
    seen: Seq<bool>,
)
    requires
        search_state(grid, camera, order, dirs, cells, seen, order.len() as int),
    ensures
        search_result(grid, camera, order, dirs),
{
    reveal(search_core);
    lemma_cells_in_range(grid);
    assert forall|j: int, d: int|
        0 <= j < order.len() && 0 <= d < 6 && #[trigger] may_step(grid, camera, order[j], dirs[j], d)
            && step_fits(order[j], d) && grid.loaded(step_spec(order[j], d)) && grid.visible(step_spec(order[j], d)) implies order.contains(
        step_spec(order[j], d),
    ) by {
        assert(seen[grid.cell(step_spec(order[j], d))]);
    }
}

/// Cave-culling search based on https://tomcc.github.io/2014/08/31/visibility-2.html.
///
/// Starting at the chunk containing the camera, visit each neighbouring chunk in a forwards
/// direction that is visible through that chunk, using the "visibility graphs" computed when
/// the chunks are loaded.
///
/// This has the following effects:
/// * Obscured areas like caves are often skipped and do not even need to be meshed
/// * Chunks are naturally rendered front-to-back
/// * Chunk meshes are only updated when the chunk is visible
///
/// Returns the chunks to be drawn in order; none if the camera's chunk is not loaded
#[verifier::spinoff_prover]
#[verifier::rlimit(80)]
pub fn visibility_search(grid: &SearchGrid, camera_chunk_pos: ChunkPosition) -> (r: Vec<ChunkPosition>)
    requires
        grid.wf(),
    ensures
        !grid.loaded(camera_chunk_pos) ==> r@.len() == 0,
        grid.loaded(camera_chunk_pos) ==> exists|dirs: Seq<Option<int>>, parents: Seq<(int, int)>|
            #![trigger breadth_first(*grid, camera_chunk_pos, r@, dirs, parents)]
            search_result(*grid, camera_chunk_pos, r@, dirs) && breadth_first(*grid, camera_chunk_pos, r@, dirs, parents),
{
    let ghost camera = camera_chunk_pos;
    // whether each chunk in the loaded area has been added to the queue
    let n = grid.size.product();
    let mut seen: Vec<bool> = Vec::new();
    while seen.len() < n
        invariant
            seen@.len() <= n,
            forall|i: int| 0 <= i < seen@.len() ==> !#[trigger] seen@[i],
        decreases n - seen@.len(),
    {
        seen.push(false);
    }
    // start at the camera position
    let camera_cell = match cell_of(grid, camera_chunk_pos) {
        Some(i) => i,
        None => return Vec::new(),
    };
    if grid.connections[camera_cell].is_none() {
        return Vec::new();
    }
    // queue of chunks to render in order, along with the face they were visited from
    let mut step_queue: Vec<ChunkPosition> = Vec::new();
    let mut last_dirs: Vec<Option<usize>> = Vec::new();
    step_queue.push(camera_chunk_pos);
    last_dirs.push(None);
    let ghost seen0 = seen@;
    seen.set(camera_cell, true);
    let ghost mut cells: Seq<int> = seq![camera_cell as int];
    let ghost mut dirs: Seq<Option<int>> = seq![None];
    let ghost mut parents: Seq<(int, int)> = seq![(0int, 0int)];
    proof {
        lemma_search_init(*grid, camera, seen0, seen@);
        lemma_bfs_init(*grid, camera);
        assert(step_queue@ == seq![camera]);
    }
    // index of the entry in `step_queue` that is currently being visited
    let mut step_index: usize = 0;
    while step_index < step_queue.len()
        invariant
            search_state(*grid, camera, step_queue@, dirs, cells, seen@, step_index as int),
            bfs_state(*grid, camera, step_queue@, dirs, parents, step_index as int, 0),
            last_dirs@.len() == dirs.len(),
            forall|k: int| 0 <= k < dirs.len() ==> #[trigger] dirs[k] == dir_int(last_dirs@[k]),
            forall|k: int| 0 <= k < last_dirs@.len() ==> (#[trigger] last_dirs@[k] matches Some(d) ==> d < 6),
            n == grid.size.product_spec(),
            camera == camera_chunk_pos,
        decreases n - step_index,
    {
        let step = step_queue[step_index];
        let last_dir = last_dirs[step_index];
        let step_cell = cell_of(grid, step).unwrap();
        let graph = grid.connections[step_cell].unwrap();
        let ghost step_dir = dirs[step_index as int];
        proof {
            assert(grid.loaded(step_queue@[step_index as int]));
        }

        // consider whether to explore the 6 neighbouring chunks
        let mut dir: usize = 0;
        while dir < 6
            invariant
                search_state(*grid, camera, step_queue@, dirs, cells, seen@, step_index as int),
                bfs_state(*grid, camera, step_queue@, dirs, parents, step_index as int, dir as int),
                last_dirs@.len() == dirs.len(),
                forall|k: int| 0 <= k < dirs.len() ==> #[trigger] dirs[k] == dir_int(last_dirs@[k]),
                forall|k: int| 0 <= k < last_dirs@.len() ==> (#[trigger] last_dirs@[k] matches Some(d) ==> d < 6),
                n == grid.size.product_spec(),
                camera == camera_chunk_pos,
                step_index < step_queue@.len(),
                step == step_queue@[step_index as int],
                step_dir == dirs[step_index as int],
                step_dir == dir_int(last_dir),
                last_dir matches Some(l) ==> l < 6,
                graph == grid.graph(step),
                dir <= 6,
                forall|d: int|
                    0 <= d < dir && #[trigger] may_step(*grid, camera, step, step_dir, d)
                        && step_fits(step, d) && grid.contains(step_spec(step, d)) ==> seen@[grid.cell(step_spec(step, d))],
            decreases 6 - dir,
        {
            let allowed = step_allowed(camera_chunk_pos, step, last_dir, graph, dir);
            let ghost seen_before = seen@;
            let ghost q_before = step_queue@;
            let ghost cells_before = cells;
            let ghost dirs_before = dirs;
            let ghost last_before = last_dirs@;
            let ghost parents_before = parents;
            if allowed {
                match step_chunk(step, dir) {
                    Some(chunk_pos) => match cell_of(grid, chunk_pos) {
                        Some(chunk_cell) => {
                            // don't visit the same chunk twice
                            if !seen[chunk_cell] {
                                seen.set(chunk_cell, true);
                                // frustum culling, and only loaded chunks
                                if grid.in_frustum[chunk_cell] && grid.connections[chunk_cell].is_some() {
                                    step_queue.push(chunk_pos);
                                    last_dirs.push(Some(dir));
                                    proof {
                                        lemma_bfs_push(*grid, camera, q_before, dirs_before, cells_before, seen_before,
                                            parents_before, step_index as int, dir as int, chunk_pos);
                                        cells = cells.push(chunk_cell as int);
                                        dirs = dirs.push(Some(dir as int));
                                        parents = parents.push((step_index as int, dir as int));
                                    }
                                }
                                proof {
                                    lemma_search_step(*grid, camera, q_before, dirs_before, cells_before, seen_before,
                                        step_queue@, dirs, cells, seen@, step_index as int, dir as int, chunk_pos, chunk_cell as int);
                                }
                            }
                        },
                        None => {},
                    },
                    None => {},
                }
            }
            proof {
                if step_queue@.len() == q_before.len() {
                    lemma_bfs_advance(*grid, camera, step_queue@, dirs, parents, step_index as int, dir as int,
                        step_index as int, dir as int + 1);
                }
                lemma_cells_in_range(*grid);
                assert forall|k: int| 0 <= k < dirs.len() implies #[trigger] dirs[k] == dir_int(last_dirs@[k]) by {
                    if k < dirs_before.len() {
                        assert(dirs[k] == dirs_before[k]);
                        assert(last_dirs@[k] == last_before[k]);
                    }
                }
                assert forall|k: int| 0 <= k < last_dirs@.len() implies (#[trigger] last_dirs@[k] matches Some(d) ==> d < 6) by {
                    if k < last_before.len() {
                        assert(last_dirs@[k] == last_before[k]);
                    }
                }
                assert(dirs[step_index as int] == dirs_before[step_index as int]);
                assert forall|d: int|
                    0 <= d < dir + 1 && #[trigger] may_step(*grid, camera, step, step_dir, d)
                        && step_fits(step, d) && grid.contains(step_spec(step, d)) implies seen@[grid.cell(step_spec(step, d))] by {
                    if d < dir {
                        assert(seen_before[grid.cell(step_spec(step, d))]);
                    }
                }
            }
            dir = dir + 1;
        }
        proof {
            lemma_search_advance(*grid, camera, step_queue@, dirs, cells, seen@, step_index as int);
            lemma_bfs_advance(*grid, camera, step_queue@, dirs, parents, step_index as int, 6, step_index as int + 1, 0);
        }
        step_index = step_index + 1;
    }
    proof {
        lemma_search_done(*grid, camera, step_queue@, dirs, cells, seen@);
        lemma_bfs_done(*grid, camera, step_queue@, dirs, parents, step_index as int, 0);
        assert(breadth_first(*grid, camera_chunk_pos, step_queue@, dirs, parents));
    }
    step_queue
}

/// One step of the search keeps its state: marking the chunk next to the visited one
/// as seen, and queueing it if it is loaded and visible.
proof fn lemma_search_step(
    grid: SearchGrid,
    camera: ChunkPosition,
    order0: Seq<ChunkPosition>,
    dirs0: Seq<Option<int>>,
    cells0: Seq<int>,
    seen0: Seq<bool>,
    order1: Seq<ChunkPosition>,
    dirs1: Seq<Option<int>>,
    cells1: Seq<int>,
    seen1: Seq<bool>,
    processed: int,
    dir: int,
    next: ChunkPosition,
    next_cell: int,
)
    requires
        search_state(grid, camera, order0, dirs0, cells0, seen0, processed),
        processed < order0.len(),
        0 <= dir < 6,
        may_step(grid, camera, order0[processed], dirs0[processed], dir),
        step_fits(order0[processed], dir),
        next == step_spec(order0[processed], dir),
        grid.contains(next),
        next_cell == grid.cell(next),
        !seen0[next_cell],
        seen1 == seen0.update(next_cell, true),
        (grid.loaded(next) && grid.visible(next)) ==> order1 == order0.push(next) && dirs1 == dirs0.push(Some(dir))
            && cells1 == cells0.push(next_cell),
        !(grid.loaded(next) && grid.visible(next)) ==> order1 == order0 && dirs1 == dirs0 && cells1 == cells0,
    ensures
        search_state(grid, camera, order1, dirs1, cells1, seen1, processed),
{
    reveal(search_core);
    let n = grid.size.product_spec();
    lemma_cells_in_range(grid);
    assert(!cells0.contains(next_cell)) by {
        if cells0.contains(next_cell) {
            let k = choose|k: int| 0 <= k < cells0.len() && cells0[k] == next_cell;
            assert(seen0[cells0[k]]);
        }
    }
    assert forall|k: int|
        0 <= k < order1.len() implies #[trigger] cells1[k] == grid.cell(order1[k]) && 0 <= cells1[k] < n
            && seen1[cells1[k]] by {
        if k < order0.len() {
            assert(order1[k] == order0[k] && cells1[k] == cells0[k]);
        }
    }
    assert forall|k: int| 0 <= k < order1.len() implies grid.loaded(#[trigger] order1[k]) by {
        if k < order0.len() {
            assert(order1[k] == order0[k]);
        }
    }
    assert forall|k: int| 0 < k < order1.len() implies grid.visible(#[trigger] order1[k]) by {
        if k < order0.len() {
            assert(order1[k] == order0[k]);
        }
    }
    assert(cells1.no_duplicates()) by {
        if cells1 != cells0 {
            assert forall|i: int, j: int| 0 <= i < cells1.len() && 0 <= j < cells1.len() && i != j implies cells1[i] != cells1[j] by {
                if i < cells0.len() && j < cells0.len() {
                    assert(cells1[i] == cells0[i] && cells1[j] == cells0[j]);
                } else if i < cells0.len() {
                    assert(cells1[i] == cells0[i]);
                    assert(cells0.contains(cells0[i]));
                } else {
                    assert(cells1[j] == cells0[j]);
                    assert(cells0.contains(cells0[j]));
                }
            }
        }
    }
    assert forall|k: int| 0 <= k < cells1.len() implies 0 <= #[trigger] cells1[k] < n by {
        assert(cells1[k] == grid.cell(order1[k]) && 0 <= cells1[k] < n);
    }
    lemma_queue_bounded(cells1, n);
    assert forall|k1: int, k2: int| 0 <= k1 < k2 < order1.len() implies #[trigger] order1[k1] != #[trigger] order1[k2] by {
        if k2 < order0.len() {
            assert(order1[k1] == order0[k1] && order1[k2] == order0[k2]);
        } else {
            assert(order1[k1] == order0[k1]);
            assert(cells0[k1] == grid.cell(order0[k1]));
            assert(cells0.contains(cells0[k1]));
        }
    }
    assert(all_reached(grid, camera, order1, dirs1)) by {
        assert forall|k: int| 0 < k < order1.len() implies #[trigger] reached_earlier(grid, camera, order1, dirs1, k) by {
            if k < order0.len() {
                assert(order1[k] == order0[k] && dirs1[k] == dirs0[k]);
                assert(reached_earlier(grid, camera, order0, dirs0, k));
                let j = choose|j: int| 0 <= j < k && #[trigger] reached_from(grid, camera, order0, dirs0, k, j);
                assert(order1[j] == order0[j] && dirs1[j] == dirs0[j]);
                assert(reached_from(grid, camera, order1, dirs1, k, j));
            } else {
                assert(order1[processed] == order0[processed] && dirs1[processed] == dirs0[processed]);
                assert(reached_from(grid, camera, order1, dirs1, k, processed));
            }
        }
    }
    assert forall|j: int, d: int|
        0 <= j < processed && 0 <= d < 6 && #[trigger] may_step(grid, camera, order1[j], dirs1[j], d)
            && step_fits(order1[j], d) && grid.contains(step_spec(order1[j], d)) implies seen1[grid.cell(step_spec(order1[j], d))] by {
        assert(order1[j] == order0[j] && dirs1[j] == dirs0[j]);
        assert(seen0[grid.cell(step_spec(order0[j], d))]);
    }
    assert forall|c: ChunkPosition|
        grid.contains(c) && #[trigger] seen1[grid.cell(c)] && grid.loaded(c) && (grid.visible(c) || c == camera) implies order1.contains(c) by {
        if grid.cell(c) == next_cell {
            lemma_cells_distinct(grid, c, next);
            if c == camera {
                assert(seen0[cells0[0]]);
                assert(false);
            }
            assert(order1 == order0.push(next));
            assert(order1[order0.len() as int] == c);
        } else {
            assert(seen1[grid.cell(c)] == seen0[grid.cell(c)]);
            assert(order0.contains(c));
            let k = choose|k: int| 0 <= k < order0.len() && order0[k] == c;
            assert(order1[k] == c);
        }
    }
}

} // verus!
