use voxel_terrain::terrain::block::BlockId;
use voxel_terrain::terrain::chunk::Chunk;
use voxel_terrain::terrain::chunk_arena::ChunkIndex;
use voxel_terrain::terrain::event::TerrainEvent;
use voxel_terrain::terrain::load_area::{corner_around, AreaShape, LoadArea, LoadAreaState};
use voxel_terrain::terrain::position_types::{ChunkPosition, GlobalBlockPosition, LocalBlockPosition};
use voxel_terrain::terrain::Terrain;
use voxel_terrain::util::size::Size3;
use voxel_terrain::util::vector::IVec3;

fn dirt_chunk(pos: ChunkPosition) -> Chunk {
    Chunk::new(pos, &vec![BlockId(1); 32768])
}

fn terrain_with_area() -> (Terrain, usize) {
    let mut terrain = Terrain::new();
    let area = LoadArea::new(ChunkPosition::new(0, 0, 0), Size3::new(2, 2, 2), AreaShape::Cubic);
    let index = terrain.add_load_area(area);
    (terrain, index)
}

#[test]
fn new_terrain_is_empty() {
    let terrain = Terrain::new();
    assert!(terrain.chunks().is_empty());
    assert!(terrain.load_areas().is_empty());
    assert!(terrain.events().is_empty());
}

#[test]
fn load_chunk_only_once() {
    let (mut terrain, index) = terrain_with_area();
    assert_eq!(index, 0);
    let pos = ChunkPosition::new(1, 0, 1);
    assert!(terrain.load_chunk(pos));
    assert!(terrain.load_areas()[0].is_loading(&pos));
    // already loading: not loaded again
    assert!(!terrain.load_chunk(pos));
}

#[test]
fn finished_chunk_is_stored_and_announced() {
    let (mut terrain, index) = terrain_with_area();
    let pos = ChunkPosition::new(1, 1, 0);
    assert!(terrain.load_chunk(pos));
    terrain.finished_loading_chunk(dirt_chunk(pos), true);
    assert_eq!(terrain.chunks().len(), 1);
    assert!(terrain.load_areas()[index].is_loaded(&pos));
    assert_eq!(terrain.load_areas()[index].get_chunk_index(&pos), Some(ChunkIndex { slot: 0, generation: 0 }));
    assert_eq!(terrain.events(), &vec![TerrainEvent::ChunkLoaded(pos)]);
    assert_eq!(terrain.get_chunk(index, &pos).map(|c| c.position()), Some(pos));
    assert!(!terrain.load_chunk(pos));
}

#[test]
fn chunk_finished_outside_every_area_is_dropped() {
    let (mut terrain, index) = terrain_with_area();
    let pos = ChunkPosition::new(0, 0, 0);
    assert!(terrain.load_chunk(pos));
    terrain.finished_loading_chunk(dirt_chunk(pos), false);
    assert!(terrain.chunks().is_empty());
    assert!(terrain.events().is_empty());
    assert!(terrain.load_areas()[index].is_loading(&pos));
}

#[test]
fn get_and_set_block_in_loaded_chunk() {
    let (mut terrain, index) = terrain_with_area();
    let pos = ChunkPosition::new(1, 0, 0);
    terrain.load_chunk(pos);
    terrain.finished_loading_chunk(dirt_chunk(pos), true);
    terrain.clear_events();
    let g = GlobalBlockPosition::new(33, 2, 3);
    assert_eq!(terrain.get_block(index, &g), Some(BlockId(1)));
    assert!(terrain.set_block(index, &g, BlockId(4)));
    assert_eq!(terrain.get_block(index, &g), Some(BlockId(4)));
    assert_eq!(terrain.get_block(index, &GlobalBlockPosition::new(34, 2, 3)), Some(BlockId(1)));
    assert_eq!(
        terrain.events(),
        &vec![TerrainEvent::BlockModified(pos, LocalBlockPosition::new(1, 2, 3))]
    );
}

#[test]
fn blocks_outside_loaded_chunks_are_absent() {
    let (mut terrain, index) = terrain_with_area();
    let g = GlobalBlockPosition::new(5, 5, 5);
    assert_eq!(terrain.get_block(index, &g), None);
    assert!(!terrain.set_block(index, &g, BlockId(2)));
    assert!(terrain.events().is_empty());
    // a loading chunk holds no blocks yet
    terrain.load_chunk(ChunkPosition::new(0, 0, 0));
    assert_eq!(terrain.get_block(index, &g), None);
}

#[test]
fn unload_chunk_forgets_it() {
    let (mut terrain, index) = terrain_with_area();
    let pos = ChunkPosition::new(0, 1, 1);
    terrain.load_chunk(pos);
    terrain.finished_loading_chunk(dirt_chunk(pos), true);
    let first = terrain.load_areas()[index].get_chunk_index(&pos).unwrap();
    terrain.unload_chunk(first);
    assert!(terrain.chunks().is_empty());
    assert!(terrain.load_areas()[index].is_unloaded(&pos));
    assert_eq!(
        terrain.events(),
        &vec![TerrainEvent::ChunkLoaded(pos), TerrainEvent::ChunkUnloaded(pos)]
    );
    // it can be loaded again, under a new index
    assert!(terrain.load_chunk(pos));
    terrain.finished_loading_chunk(dirt_chunk(pos), true);
    // the slot is reused, in the arena's next generation
    let second = terrain.load_areas()[index].get_chunk_index(&pos).unwrap();
    assert_eq!(second, ChunkIndex { slot: first.slot, generation: first.generation + 1 });
    assert_ne!(second, first);
}

#[test]
fn check_chunks_to_load_lists_each_unloaded_chunk_once() {
    let (mut terrain, index) = terrain_with_area();
    let a = ChunkPosition::new(0, 0, 0);
    let b = ChunkPosition::new(1, 0, 0);
    let c = ChunkPosition::new(1, 1, 1);
    terrain.load_chunk(c);
    let to_load = terrain.check_chunks_to_load(&[a, b, a, c]);
    assert_eq!(to_load, vec![a, b]);
    assert!(terrain.load_areas()[index].is_loading(&a));
    assert!(terrain.load_areas()[index].is_loading(&b));
    assert!(terrain.check_chunks_to_load(&[a, b]).is_empty());
}

#[test]
fn check_chunks_to_unload_waits_for_a_dirty_area() {
    let (mut terrain, index) = terrain_with_area();
    let pos = ChunkPosition::new(1, 1, 0);
    terrain.load_chunk(pos);
    terrain.finished_loading_chunk(dirt_chunk(pos), true);
    terrain.mark_areas_clean();
    assert_eq!(terrain.load_areas()[index].state(), LoadAreaState::Clean);
    let i = terrain.load_areas()[index].get_chunk_index(&pos).unwrap();
    terrain.check_chunks_to_unload(&[i]);
    assert_eq!(terrain.chunks().len(), 1);
    // moving the area makes it dirty
    terrain.set_load_area_pos(index, ChunkPosition::new(4, 0, 0));
    assert_eq!(terrain.load_areas()[index].state(), LoadAreaState::Dirty);
    terrain.check_chunks_to_unload(&[i, ChunkIndex { slot: 7, generation: 0 }]);
    assert!(terrain.chunks().is_empty());
    assert_eq!(terrain.events().last(), Some(&TerrainEvent::ChunkUnloaded(pos)));
}

#[test]
fn set_load_area_pos_to_same_place_keeps_it_clean() {
    let (mut terrain, index) = terrain_with_area();
    terrain.mark_areas_clean();
    terrain.set_load_area_pos(index, ChunkPosition::new(0, 0, 0));
    assert_eq!(terrain.load_areas()[index].state(), LoadAreaState::Clean);
    assert_eq!(terrain.load_areas()[index].position(), ChunkPosition::new(0, 0, 0));
}

#[test]
fn box_positions_walk_the_box_by_x_then_y_then_z() {
    let area = LoadArea::new(ChunkPosition::new(-1, 4, 7), Size3::new(2, 1, 3), AreaShape::Spherical);
    let expected = vec![
        ChunkPosition::new(-1, 4, 7),
        ChunkPosition::new(-1, 4, 8),
        ChunkPosition::new(-1, 4, 9),
        ChunkPosition::new(0, 4, 7),
        ChunkPosition::new(0, 4, 8),
        ChunkPosition::new(0, 4, 9),
    ];
    assert_eq!(area.box_positions(), expected);
}

#[test]
fn empty_box_has_no_positions() {
    let area = LoadArea::new(ChunkPosition::new(0, 0, 0), Size3::new(3, 0, 3), AreaShape::Cubic);
    assert!(area.box_positions().is_empty());
}

#[test]
fn corner_around_subtracts_half_the_size() {
    let corner = corner_around(IVec3 { x: 10, y: -3, z: 0 }, Size3::new(5, 4, 1));
    assert_eq!(corner, ChunkPosition::new(8, -5, 0));
}

#[test]
fn unload_events_follow_candidate_order() {
    let (mut terrain, index) = terrain_with_area();
    let a = ChunkPosition::new(0, 0, 0);
    let b = ChunkPosition::new(1, 0, 0);
    terrain.load_chunk(a);
    terrain.finished_loading_chunk(dirt_chunk(a), true);
    terrain.load_chunk(b);
    terrain.finished_loading_chunk(dirt_chunk(b), true);
    let ia = terrain.load_areas()[index].get_chunk_index(&a).unwrap();
    let ib = terrain.load_areas()[index].get_chunk_index(&b).unwrap();
    terrain.clear_events();
    terrain.set_load_area_pos(index, ChunkPosition::new(10, 0, 0));
    terrain.check_chunks_to_unload(&[ib, ChunkIndex { slot: 5, generation: 0 }, ia, ib]);
    assert_eq!(
        terrain.events(),
        &vec![TerrainEvent::ChunkUnloaded(b), TerrainEvent::ChunkUnloaded(a)]
    );
    assert!(terrain.chunks().is_empty());
}
