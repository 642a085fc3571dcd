use voxel_terrain::renderer::terrain::batching::{
    ChunkBatch, ChunkBatches, ChunkMeshData, ChunkMeshStatus, CHUNK_MESH_GENERATION_PRIORITY,
    CHUNK_MESH_OPTIMIZATION_PRIORITY, CHUNK_MESH_UPDATE_PRIORITY,
};
use voxel_terrain::renderer::terrain::meshing::{
    generate_indices, light_index, mesh_culled, mesh_greedy, should_flip_quad, uvec3_to_chunk_index, vertex_order,
    ChunkMeshInput, CornerLight, FaceLightData, MeshQuad,
};
use voxel_terrain::renderer::terrain::visibility_search::{visibility_search, SearchGrid};
use voxel_terrain::renderer::terrain::{TerrainCullMode, TerrainRenderer};
use voxel_terrain::runtime::tasks::{TaskId, TaskPriority, Tasks};
use voxel_terrain::terrain::block::BlockId;
use voxel_terrain::terrain::chunk::connections::ChunkConnections;
use voxel_terrain::terrain::chunk::light_store::ChunkLightStore;
use voxel_terrain::terrain::chunk::Chunk;
use voxel_terrain::terrain::chunk_arena::ChunkIndex;
use voxel_terrain::terrain::event::TerrainEvent;
use voxel_terrain::terrain::load_area::{AreaShape, LoadArea};
use voxel_terrain::terrain::position_types::{ChunkPosition, LocalBlockPosition};
use voxel_terrain::util::face::FaceIndex;
use voxel_terrain::util::size::Size3;
use voxel_terrain::util::vector::{IVec3, UVec3};

const AIR: BlockId = BlockId(0);
const DIRT: BlockId = BlockId(1);

fn index(x: usize, y: usize, z: usize) -> usize {
    x + 32 * y + 1024 * z
}

fn mesh_of(blocks: &[BlockId], greedy: bool) -> Vec<MeshQuad> {
    let light = ChunkLightStore::new();
    let faces = vec![None, None, None, None, None, None];
    let lights = vec![None, None, None, None, None, None];
    let input = ChunkMeshInput {
        blocks,
        light: &light,
        surrounding_sides_faces: &faces,
        surrounding_sides_light: &lights,
    };
    if greedy {
        mesh_greedy(input)
    } else {
        mesh_culled(input)
    }
}

#[test]
fn single_block_has_six_faces() {
    let mut blocks = vec![AIR; 32768];
    blocks[index(4, 5, 6)] = DIRT;
    let quads = mesh_of(&blocks, false);
    assert_eq!(quads.len(), 6);
    let mut seen = [false; 6];
    for q in &quads {
        assert_eq!((q.size_u, q.size_v), (1, 1));
        seen[q.face.as_usize()] = true;
    }
    assert_eq!(seen, [true; 6]);
    assert_eq!(mesh_of(&blocks, true).len(), 6);
}

#[test]
fn greedy_meshing_merges_a_bar() {
    let mut blocks = vec![AIR; 32768];
    for x in 3..7 {
        blocks[index(x, 10, 10)] = DIRT;
    }
    assert_eq!(mesh_of(&blocks, false).len(), 4 * 4 + 2);
    let greedy = mesh_of(&blocks, true);
    assert_eq!(greedy.len(), 6);
    let area: u32 = greedy.iter().map(|q| q.size_u * q.size_v).sum();
    assert_eq!(area, 4 * 4 + 2);
}

#[test]
fn greedy_meshing_grows_along_u_then_v() {
    let mut blocks = vec![AIR; 32768];
    for (x, z) in [(0, 0), (1, 0), (2, 0), (0, 1)] {
        blocks[index(x, 10, z)] = DIRT;
    }
    let top: Vec<(u32, u32, u32, u32, u32)> = mesh_of(&blocks, true)
        .iter()
        .filter(|q| q.face == FaceIndex::pos_y())
        .map(|q| (q.layer, q.u, q.v, q.size_u, q.size_v))
        .collect();
    // for faces pointing up, u runs along z and v along x: the first row (x = 0)
    // merges two cells along z, then the cell at x = 1 grows along x
    assert_eq!(top, vec![(10, 0, 0, 2, 1), (10, 0, 1, 1, 2)]);
}

#[test]
fn hidden_faces_are_not_meshed() {
    let blocks = vec![DIRT; 32768];
    // with no neighbouring chunks loaded, only the outer faces of the chunk show
    let quads = mesh_of(&blocks, true);
    assert_eq!(quads.len(), 6);
    let area: u32 = quads.iter().map(|q| q.size_u * q.size_v).sum();
    assert_eq!(area, 6 * 1024);
    assert_eq!(mesh_of(&vec![AIR; 32768], true).len(), 0);
}

#[test]
fn indices_follow_the_quad_pattern() {
    assert_eq!(generate_indices(8), vec![0, 1, 2, 2, 3, 0, 4, 5, 6, 6, 7, 4]);
    assert_eq!(generate_indices(3), Vec::<u32>::new());
}

#[test]
fn quad_flipping_and_vertex_order() {
    let dark = CornerLight { r: 0, g: 0, b: 0 };
    let bright = CornerLight { r: 10, g: 10, b: 10 };
    let flip = FaceLightData { c0: dark, c1: bright, c2: bright, c3: dark };
    let keep = FaceLightData { c0: bright, c1: dark, c2: dark, c3: bright };
    assert!(should_flip_quad(&flip));
    assert!(!should_flip_quad(&keep));
    assert_eq!(vertex_order(true, 3), 0);
    assert_eq!(vertex_order(false, 3), 3);
    assert_eq!(light_index(FaceIndex::pos_x(), 0), 2);
    assert_eq!(light_index(FaceIndex::neg_z(), 1), 3);
    assert_eq!(uvec3_to_chunk_index(UVec3::new(1, 2, 3)), 1 + 64 + 3072);
}

fn open_graph() -> ChunkConnections {
    ChunkConnections::compute(&vec![AIR; 32768])
}

fn solid_graph() -> ChunkConnections {
    ChunkConnections::compute(&vec![DIRT; 32768])
}

#[test]
fn visibility_search_walks_open_chunks() {
    let size = Size3::new(3, 1, 1);
    let connections = vec![Some(open_graph()), Some(open_graph()), Some(open_graph())];
    let in_frustum = vec![true, true, true];
    let grid = SearchGrid { corner: ChunkPosition::new(0, 0, 0), size, connections: &connections, in_frustum: &in_frustum };
    let order = visibility_search(&grid, ChunkPosition::new(0, 0, 0));
    assert_eq!(order, vec![ChunkPosition::new(0, 0, 0), ChunkPosition::new(1, 0, 0), ChunkPosition::new(2, 0, 0)]);
}

#[test]
fn visibility_search_stops_at_solid_chunks_and_frustum() {
    let size = Size3::new(3, 1, 1);
    let connections = vec![Some(open_graph()), Some(solid_graph()), Some(open_graph())];
    let in_frustum = vec![true, true, true];
    let grid = SearchGrid { corner: ChunkPosition::new(0, 0, 0), size, connections: &connections, in_frustum: &in_frustum };
    let order = visibility_search(&grid, ChunkPosition::new(0, 0, 0));
    // the solid chunk is seen, but nothing can be seen through it
    assert_eq!(order, vec![ChunkPosition::new(0, 0, 0), ChunkPosition::new(1, 0, 0)]);

    let connections = vec![Some(open_graph()), Some(open_graph()), Some(open_graph())];
    let in_frustum = vec![true, false, true];
    let grid = SearchGrid { corner: ChunkPosition::new(0, 0, 0), size, connections: &connections, in_frustum: &in_frustum };
    assert_eq!(visibility_search(&grid, ChunkPosition::new(0, 0, 0)), vec![ChunkPosition::new(0, 0, 0)]);

    let connections = vec![None, Some(open_graph()), Some(open_graph())];
    let grid = SearchGrid { corner: ChunkPosition::new(0, 0, 0), size, connections: &connections, in_frustum: &in_frustum };
    assert_eq!(visibility_search(&grid, ChunkPosition::new(0, 0, 0)), Vec::new());
}

#[test]
fn visibility_search_is_breadth_first() {
    let size = Size3::new(3, 1, 3);
    let connections = vec![Some(open_graph()); 9];
    let in_frustum = vec![true; 9];
    let grid = SearchGrid { corner: ChunkPosition::new(0, 0, 0), size, connections: &connections, in_frustum: &in_frustum };
    let order = visibility_search(&grid, ChunkPosition::new(1, 0, 1));
    let expected = vec![
        ChunkPosition::new(1, 0, 1),
        ChunkPosition::new(2, 0, 1),
        ChunkPosition::new(1, 0, 2),
        ChunkPosition::new(0, 0, 1),
        ChunkPosition::new(1, 0, 0),
        ChunkPosition::new(2, 0, 2),
        ChunkPosition::new(2, 0, 0),
        ChunkPosition::new(0, 0, 2),
        ChunkPosition::new(0, 0, 0),
    ];
    assert_eq!(order, expected);
}

fn mesh(queued_instant: u64, quads: usize) -> ChunkMeshData<MeshQuad> {
    let quad = MeshQuad {
        face: FaceIndex::pos_y(),
        u: 0,
        v: 0,
        layer: 0,
        size_u: 1,
        size_v: 1,
        texture_index: 0,
        light: FaceLightData {
            c0: CornerLight { r: 0, g: 0, b: 0 },
            c1: CornerLight { r: 0, g: 0, b: 0 },
            c2: CornerLight { r: 0, g: 0, b: 0 },
            c3: CornerLight { r: 0, g: 0, b: 0 },
        },
        flipped: false,
    };
    ChunkMeshData { vertices: vec![quad; quads], queued_instant }
}

#[test]
fn batch_keeps_the_newest_mesh() {
    let mut batch: ChunkBatch<MeshQuad> = ChunkBatch::new(IVec3::new(0, 0, 0));
    let slot = UVec3::new(1, 0, 1);
    assert_eq!(batch.get_chunk_mesh_status(&slot), ChunkMeshStatus::Missing);
    assert!(batch.set_mesh_data_for_chunk(slot, mesh(10, 2)));
    assert_eq!(batch.get_chunk_mesh_status(&slot), ChunkMeshStatus::Good);
    assert!(!batch.set_mesh_data_for_chunk(slot, mesh(5, 7)));
    assert!(batch.set_mesh_data_for_chunk(slot, mesh(10, 3)));
    assert!(batch.vertex_buffer_needs_updating());
    assert!(batch.set_mesh_data_for_chunk(UVec3::new(0, 0, 0), mesh(1, 1)));
    let vertices = batch.update_vertex_buffer();
    assert_eq!(vertices.len(), 4);
    assert_eq!(batch.vertex_count(), 4);
    assert_eq!(batch.index_count(), 6);
    assert!(!batch.vertex_buffer_needs_updating());
}

#[test]
fn batch_status_transitions() {
    let mut batch: ChunkBatch<MeshQuad> = ChunkBatch::new(IVec3::new(0, 0, 0));
    let slot = UVec3::new(0, 1, 0);
    batch.mark_outdated(&slot);
    batch.mark_suboptimal(&slot);
    assert_eq!(batch.get_chunk_mesh_status(&slot), ChunkMeshStatus::Missing);
    batch.mark_generating(&slot, TaskId(3));
    assert_eq!(batch.get_chunk_mesh_status(&slot), ChunkMeshStatus::Generating(TaskId(3)));
    batch.mark_outdated(&slot);
    batch.mark_suboptimal(&slot);
    assert_eq!(batch.get_chunk_mesh_status(&slot), ChunkMeshStatus::Outdated);
    batch.set_mesh_data_for_chunk(slot, mesh(0, 1));
    batch.mark_suboptimal(&slot);
    assert_eq!(batch.get_chunk_mesh_status(&slot), ChunkMeshStatus::Suboptimal);
    batch.reset(IVec3::new(5, 5, 5));
    assert_eq!(batch.position(), IVec3::new(5, 5, 5));
    assert_eq!(batch.get_chunk_mesh_status(&slot), ChunkMeshStatus::Missing);
}

#[test]
fn batch_positions_and_indices() {
    let (batch, in_batch) = ChunkBatches::<MeshQuad>::get_batch_pos_and_chunk_pos_in_batch(&ChunkPosition::new(-1, 2, 3));
    assert_eq!(batch, IVec3::new(-1, 1, 1));
    assert_eq!(in_batch, UVec3::new(1, 0, 1));
    let area = LoadArea::new(ChunkPosition::new(0, 0, 0), Size3::new(4, 2, 6), AreaShape::Cubic);
    let batches: ChunkBatches<MeshQuad> = ChunkBatches::new(&area);
    assert_eq!(batches.size(), Size3::new(3, 2, 4));
    assert_eq!(batches.get_batch_index(&IVec3::new(-1, 0, 0)), 2);
    assert_eq!(batches.get_batch_index(&IVec3::new(1, 1, 5)), 1 + 3 + 6);
    // batches start out listed by x, then y, then z
    assert!(batches.get_batch(&IVec3::new(0, 0, 0)).is_some());
    assert!(batches.get_batch(&IVec3::new(0, 0, 1)).is_none());
}

#[test]
fn renderer_requests_and_draws_meshes() {
    let area = LoadArea::new(ChunkPosition::new(0, 0, 0), Size3::new(2, 2, 2), AreaShape::Cubic);
    let mut renderer: TerrainRenderer<MeshQuad> = TerrainRenderer::new(&area, TerrainCullMode::VisibilitySearch);
    let mut tasks: Tasks<u32> = Tasks::new(1);
    let chunk = Chunk::new(ChunkPosition::new(3, 0, 0), &vec![AIR; 32768]);
    assert_eq!(renderer.request_mesh_updates_for_chunk(&chunk, &mut tasks), Some(CHUNK_MESH_GENERATION_PRIORITY));
    let priority = TaskPriority { class_priority: CHUNK_MESH_GENERATION_PRIORITY, priority_within_class: 0 };
    let (is_air, first) = renderer.chunk_batches.queue_chunk_for_meshing(&chunk, &mut tasks, priority, 1);
    assert!(is_air);
    assert_eq!(renderer.request_mesh_updates_for_chunk(&chunk, &mut tasks), None);
    // queueing again cancels the first task
    let (_, second) = renderer.chunk_batches.queue_chunk_for_meshing(&chunk, &mut tasks, priority, 2);
    assert!(!tasks.cancel_if_pending(first));
    assert_eq!(tasks.take_next_task(), Some((second, 2)));

    let mut loaded_area = LoadArea::new(ChunkPosition::new(2, 0, 0), Size3::new(2, 2, 2), AreaShape::Cubic);
    loaded_area.mark_loaded(&ChunkPosition::new(3, 0, 0), ChunkIndex { slot: 0, generation: 0 });
    renderer.chunk_batches.finished_mesh_received(&loaded_area, ChunkPosition::new(3, 0, 0), mesh(1, 2));
    let (updated, index_vertices) = renderer.chunk_batches.update(0);
    assert_eq!(updated.len(), 1);
    assert_eq!(updated[0].1.len(), 2);
    assert_eq!(index_vertices, 2);

    renderer.process_event(&TerrainEvent::BlockModified(ChunkPosition::new(3, 0, 0), LocalBlockPosition::new(0, 0, 0)));
    assert_eq!(renderer.request_mesh_updates_for_chunk(&chunk, &mut tasks), Some(CHUNK_MESH_UPDATE_PRIORITY));
    renderer.process_event(&TerrainEvent::ChunkLoaded(ChunkPosition::new(2, 0, 0)));
    assert_eq!(renderer.request_mesh_updates_for_chunk(&chunk, &mut tasks), Some(CHUNK_MESH_UPDATE_PRIORITY));

    let queue = [ChunkPosition::new(3, 0, 0), ChunkPosition::new(2, 1, 1), ChunkPosition::new(0, 0, 0)];
    let first_frame = renderer.select_batches_to_draw(&queue, 1);
    assert_eq!(first_frame.len(), 1);
    assert!(renderer.select_batches_to_draw(&queue, 1).is_empty());
    assert_eq!(renderer.select_batches_to_draw(&queue, 2), first_frame);
    let _ = CHUNK_MESH_OPTIMIZATION_PRIORITY;
}

#[test]
fn merged_mesh_is_never_larger_than_culled() {
    let mut shapes = Vec::new();
    let mut single = vec![AIR; 32768];
    single[index(0, 0, 0)] = DIRT;
    shapes.push(single);
    let mut slab = vec![AIR; 32768];
    for x in 2..9 {
        for z in 4..7 {
            slab[index(x, 3, z)] = DIRT;
        }
    }
    shapes.push(slab);
    let mut checker = vec![AIR; 32768];
    for x in 0..6 {
        for y in 0..6 {
            if (x + y) % 2 == 0 {
                checker[index(x, y, 1)] = DIRT;
            }
        }
    }
    shapes.push(checker);
    for blocks in &shapes {
        let culled = mesh_of(blocks, false).len();
        let greedy = mesh_of(blocks, true).len();
        assert!(greedy <= culled);
    }
    assert!(mesh_of(&shapes[1], true).len() < mesh_of(&shapes[1], false).len());
}
