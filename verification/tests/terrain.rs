use voxel_terrain::terrain::block::BlockId;
use voxel_terrain::terrain::chunk::connections::ChunkConnections;
use voxel_terrain::terrain::chunk::simple_storage::{ChunkStorage, GenericChunk, SimpleChunkStorage};
use voxel_terrain::terrain::chunk::storage::ChunkBlockStorage;
use voxel_terrain::terrain::chunk::light_store::ChunkLightStore;
use voxel_terrain::terrain::chunk::Chunk;
use voxel_terrain::terrain::chunk_arena::ChunkIndex;
use voxel_terrain::terrain::lighting::skylight::Skylight;
use voxel_terrain::terrain::lighting::emitted_light::{propagate_emitted_light, EmittedLight};
use voxel_terrain::terrain::lighting::{LightPropagationStep, LightUpdate};
use voxel_terrain::terrain::load_area::{rem_euclid_i32, AreaShape, LoadArea, LoadAreaState};
use voxel_terrain::terrain::position_types::{ChunkPosition, LocalBlockPosition};
use voxel_terrain::terrain::editing::{block_edits, EditRequest};
use voxel_terrain::terrain::temporary_generation::generate_chunk;
use voxel_terrain::util::face::FaceIndex;
use voxel_terrain::util::size::Size3;
use voxel_terrain::util::vector::{IVec3, UVec3};

const AIR: BlockId = BlockId(0);
const DIRT: BlockId = BlockId(1);
const GRASS: BlockId = BlockId(2);
const LAMP: BlockId = BlockId(4);

fn index(x: usize, y: usize, z: usize) -> usize {
    x + 32 * y + 1024 * z
}

fn faces() -> [FaceIndex; 6] {
    [
        FaceIndex::pos_x(),
        FaceIndex::pos_y(),
        FaceIndex::pos_z(),
        FaceIndex::neg_x(),
        FaceIndex::neg_y(),
        FaceIndex::neg_z(),
    ]
}

#[test]
fn air_chunk_connects_every_pair_of_faces() {
    let blocks = vec![AIR; 32768];
    let connections = ChunkConnections::compute(&blocks);
    for a in faces() {
        for b in faces() {
            if a != b {
                assert!(connections.connected(a, b));
                assert!(connections.connected(b, a));
            }
        }
    }
}

#[test]
fn solid_layer_separates_top_from_bottom() {
    let mut blocks = vec![AIR; 32768];
    for z in 0..32 {
        for x in 0..32 {
            blocks[index(x, 16, z)] = DIRT;
        }
    }
    let connections = ChunkConnections::compute(&blocks);
    assert!(!connections.connected(FaceIndex::pos_y(), FaceIndex::neg_y()));
    assert!(connections.connected(FaceIndex::pos_x(), FaceIndex::neg_x()));
    assert!(connections.connected(FaceIndex::pos_y(), FaceIndex::pos_x()));
    assert!(connections.connected(FaceIndex::neg_y(), FaceIndex::pos_z()));
}

#[test]
fn solid_chunk_connects_nothing() {
    let blocks = vec![DIRT; 32768];
    let connections = ChunkConnections::compute(&blocks);
    for a in faces() {
        for b in faces() {
            assert!(!connections.connected(a, b));
        }
    }
}

#[test]
fn block_storage_uniform_and_layered() {
    let uniform = ChunkBlockStorage::new(vec![GRASS; 32768]);
    assert!(matches!(uniform, ChunkBlockStorage::Uniform(GRASS)));
    assert_eq!(uniform.as_block_array()[12345], GRASS);

    let mut blocks = vec![AIR; 32768];
    blocks[index(3, 4, 5)] = DIRT;
    let mut layered = ChunkBlockStorage::new(blocks.clone());
    assert!(matches!(layered, ChunkBlockStorage::Layered(_)));
    assert_eq!(layered.get_block(LocalBlockPosition::new(3, 4, 5)), DIRT);
    assert_eq!(layered.get_block(LocalBlockPosition::new(4, 4, 5)), AIR);
    assert_eq!(layered.as_block_array(), blocks);
    layered.set_block(LocalBlockPosition::new(0, 31, 0), LAMP);
    assert_eq!(layered.get_block(LocalBlockPosition::new(0, 31, 0)), LAMP);
}

#[test]
fn chunk_get_and_set_block() {
    let mut chunk = Chunk::new(ChunkPosition::new(1, 2, 3), &vec![AIR; 32768]);
    assert_eq!(chunk.position(), ChunkPosition::new(1, 2, 3));
    let p = LocalBlockPosition::new(5, 6, 7);
    assert_eq!(chunk.get_block(p), AIR);
    chunk.set_block(p, DIRT);
    assert_eq!(chunk.get_block(p), DIRT);
    assert_eq!(chunk.get_block(LocalBlockPosition::new(5, 6, 8)), AIR);
    assert!(chunk.requires_light_updates());
}

#[test]
fn lamp_light_spreads_and_fades() {
    let mut blocks = vec![AIR; 32768];
    blocks[index(16, 16, 16)] = LAMP;
    let mut chunk = Chunk::new(ChunkPosition::new(0, 0, 0), &blocks);
    assert!(!chunk.requires_light_updates());
    let no_sides = [None, None, None, None, None, None];
    chunk.fill_emitted_light_queue(&no_sides);
    assert!(chunk.requires_light_updates());
    chunk.update_lighting();
    assert!(!chunk.requires_light_updates());
    let light = chunk.light_store();
    assert_eq!(light.get_emitted_light(LocalBlockPosition::new(16, 16, 16)).as_rgb(), (15, 10, 5));
    assert_eq!(light.get_emitted_light(LocalBlockPosition::new(17, 16, 16)).as_rgb(), (14, 9, 4));
    assert_eq!(light.get_emitted_light(LocalBlockPosition::new(16, 14, 16)).as_rgb(), (13, 8, 3));
    assert_eq!(light.get_emitted_light(LocalBlockPosition::new(20, 16, 16)).as_rgb(), (11, 6, 1));
    assert_eq!(light.get_emitted_light(LocalBlockPosition::new(16, 16, 26)).as_rgb(), (5, 0, 0));
}

#[test]
fn simple_storage_roundtrip() {
    let mut blocks = vec![AIR; 32768];
    blocks[index(1, 2, 3)] = GRASS;
    let mut storage = SimpleChunkStorage::from_block_array(blocks.clone());
    assert_eq!(storage.get(UVec3::new(1, 2, 3)), GRASS);
    storage.set(UVec3::new(31, 31, 31), DIRT);
    assert_eq!(storage.get(UVec3::new(31, 31, 31)), DIRT);
    blocks[32767] = DIRT;
    assert_eq!(storage.as_block_array(), blocks);
    let chunk: GenericChunk<SimpleChunkStorage> = GenericChunk::new();
    assert_eq!(chunk.storage.as_block_array(), vec![AIR; 32768]);
}

#[test]
fn generation_tops_ground_with_grass() {
    let ground_above = vec![false; 1024];
    let mut ground = vec![false; 32768];
    let cave_free = vec![true; 32768];
    let mut lamp = vec![false; 32768];
    // the column at x = 2, z = 3 has ground up to sample layer 10
    for y in 0..=10 {
        ground[2 + 32 * 3 + 1024 * y] = true;
    }
    lamp[2 + 32 * 3 + 1024 * 4] = true;
    let chunk = generate_chunk(ChunkPosition::new(0, 0, 0), &ground_above, &ground, &cave_free, &lamp);
    let blocks = chunk.block_store().as_block_array();
    assert_eq!(blocks[2 + 32 * 3 + 1024 * 10], GRASS);
    assert_eq!(blocks[2 + 32 * 3 + 1024 * 9], DIRT);
    assert_eq!(blocks[2 + 32 * 3 + 1024 * 4], LAMP);
    assert_eq!(blocks[2 + 32 * 3 + 1024 * 11], AIR);
    assert_eq!(blocks[3 + 32 * 3 + 1024 * 5], AIR);
}

#[test]
fn generation_leaves_caves_open() {
    let ground_above = vec![true; 1024];
    let ground = vec![true; 32768];
    let mut cave_free = vec![true; 32768];
    cave_free[7] = false;
    let lamp = vec![false; 32768];
    let chunk = generate_chunk(ChunkPosition::new(0, 0, 0), &ground_above, &ground, &cave_free, &lamp);
    let blocks = chunk.block_store().as_block_array();
    assert_eq!(blocks[7], AIR);
    assert_eq!(blocks[8], DIRT);
    assert_eq!(blocks[32767], DIRT);
}

#[test]
fn rem_euclid_values() {
    assert_eq!(rem_euclid_i32(-1, 5), 4);
    assert_eq!(rem_euclid_i32(-5, 5), 0);
    assert_eq!(rem_euclid_i32(7, 5), 2);
    assert_eq!(rem_euclid_i32(i32::MIN, 3), 1);
}

#[test]
fn load_area_tracks_chunk_states() {
    let mut area = LoadArea::new(ChunkPosition::new(-2, -2, -2), Size3::new(4, 4, 4), AreaShape::Cubic);
    assert_eq!(area.state(), LoadAreaState::Dirty);
    let c = ChunkPosition::new(-1, 0, 1);
    assert!(area.is_within_bounds(&c));
    assert!(!area.is_within_bounds(&ChunkPosition::new(2, 0, 0)));
    assert!(area.is_unloaded(&c));
    area.mark_loading(&c);
    assert!(area.is_loading(&c));
    assert!(!area.is_unloaded(&c));
    area.mark_loaded(&c, ChunkIndex { slot: 42, generation: 3 });
    assert!(area.is_loaded(&c));
    assert_eq!(area.get_chunk_index(&c), Some(ChunkIndex { slot: 42, generation: 3 }));
    // the chunk four chunks further shares the slot, but is not loaded
    let far = ChunkPosition::new(3, 0, 1);
    assert_eq!(area.get_chunk_index(&far), None);
    area.mark_unloaded(&c);
    assert!(area.is_unloaded(&c));
    area.set_state(LoadAreaState::Clean);
    assert_eq!(area.state(), LoadAreaState::Clean);
}

#[test]
fn block_edits_break_then_place_against_the_hit_face() {
    let hit = voxel_terrain::terrain::position_types::GlobalBlockPosition::new(5, 6, 7);
    let request = EditRequest { destroy: true, place_dirt: false, place_grass: true, place_wood: false, place_lamp: true };
    let edits = block_edits(request, hit, Some(IVec3::new(0, 1, 0)));
    let above = voxel_terrain::terrain::position_types::GlobalBlockPosition::new(5, 7, 7);
    assert_eq!(edits, vec![(hit, AIR), (above, GRASS), (above, LAMP)]);
    assert_eq!(block_edits(request, hit, None), vec![(hit, AIR)]);
}

fn lit_chunk(lamp: (usize, usize, usize)) -> (Chunk, Vec<(FaceIndex, LightUpdate)>) {
    let mut blocks = vec![AIR; 32768];
    blocks[index(lamp.0, lamp.1, lamp.2)] = LAMP;
    let mut chunk = Chunk::new(ChunkPosition::new(0, 0, 0), &blocks);
    let no_sides = [None, None, None, None, None, None];
    chunk.fill_emitted_light_queue(&no_sides);
    let updates = chunk.update_lighting();
    (chunk, updates)
}

#[test]
fn settled_chunk_sends_nothing_and_keeps_its_light() {
    let (mut chunk, _) = lit_chunk((16, 16, 16));
    let probes = [(16, 16, 16), (17, 16, 16), (20, 16, 16), (16, 16, 26), (0, 0, 0)];
    let before: Vec<(u16, u16, u16)> = probes
        .iter()
        .map(|&(x, y, z)| chunk.light_store().get_emitted_light(LocalBlockPosition::new(x, y, z)).as_rgb())
        .collect();
    let updates = chunk.update_lighting();
    assert!(updates.is_empty());
    let after: Vec<(u16, u16, u16)> = probes
        .iter()
        .map(|&(x, y, z)| chunk.light_store().get_emitted_light(LocalBlockPosition::new(x, y, z)).as_rgb())
        .collect();
    assert_eq!(before, after);
}

#[test]
fn lamp_at_border_sends_one_less_across() {
    let (_, updates) = lit_chunk((31, 16, 16));
    assert!(!updates.is_empty());
    let mut found = false;
    for (face, update) in &updates {
        match update {
            LightUpdate::EmittedLight(step) => {
                assert!(!step.is_repair_step);
                assert_ne!(step.light.as_rgb(), (0, 0, 0));
                if face.as_usize() == FaceIndex::pos_x().as_usize()
                    && step.position == LocalBlockPosition::new(0, 16, 16)
                {
                    assert_eq!(step.light.as_rgb(), (14, 9, 4));
                    found = true;
                }
            }
            _ => panic!("only emitted light is sent"),
        }
    }
    assert!(found);
}

#[test]
fn lamp_in_the_middle_sends_nothing() {
    let (_, updates) = lit_chunk((16, 16, 16));
    assert!(updates.is_empty());
}

#[test]
fn writing_the_uniform_skylight_keeps_the_store_uniform() {
    let mut store = ChunkLightStore::new();
    store.set_full_skylight();
    store.set_skylight(LocalBlockPosition::new(3, 4, 5), Skylight(15));
    assert!(matches!(store, ChunkLightStore::UniformSkylight(Skylight(15))));
    store.set_skylight(LocalBlockPosition::new(3, 4, 5), Skylight(7));
    assert!(matches!(store, ChunkLightStore::SkylightOnly(_)));
    assert_eq!(store.get_skylight(LocalBlockPosition::new(3, 4, 5)), Skylight(7));
    assert_eq!(store.get_skylight(LocalBlockPosition::new(3, 4, 6)), Skylight(15));
}

#[test]
fn load_area_resize_marks_it_dirty() {
    let mut area = LoadArea::new(ChunkPosition::new(0, 0, 0), Size3::new(4, 4, 4), AreaShape::Cubic);
    area.set_state(LoadAreaState::Clean);
    area.set_size(Size3::new(4, 4, 4));
    assert_eq!(area.state(), LoadAreaState::Clean);
    let c = ChunkPosition::new(0, 0, 0);
    area.mark_loaded(&c, ChunkIndex { slot: 7, generation: 0 });
    area.set_size(Size3::new(8, 8, 8));
    assert_eq!(area.state(), LoadAreaState::Dirty);
    assert_eq!(area.size(), Size3::new(8, 8, 8));
    // the first slot keeps its chunk
    assert_eq!(area.get_chunk_index(&c), Some(ChunkIndex { slot: 7, generation: 0 }));
    assert!(area.is_unloaded(&ChunkPosition::new(7, 7, 7)));
}

#[test]
fn corner_light_fades_and_crosses_three_faces() {
    let mut store = ChunkLightStore::new();
    let mut queue = std::collections::VecDeque::new();
    queue.push_back(LightPropagationStep {
        position: LocalBlockPosition::new(0, 0, 0),
        light: EmittedLight::from_rgb(3, 0, 0),
        is_repair_step: false,
    });
    let mut updates = Vec::new();
    let blocks = ChunkBlockStorage::new(vec![AIR; 32768]);
    propagate_emitted_light(&mut store, &mut queue, &mut updates, &blocks);
    assert!(queue.is_empty());
    assert_eq!(store.get_emitted_light(LocalBlockPosition::new(0, 0, 0)).as_rgb(), (3, 0, 0));
    assert_eq!(store.get_emitted_light(LocalBlockPosition::new(1, 0, 0)).as_rgb(), (2, 0, 0));
    assert_eq!(store.get_emitted_light(LocalBlockPosition::new(1, 1, 0)).as_rgb(), (1, 0, 0));
    assert_eq!(store.get_emitted_light(LocalBlockPosition::new(2, 1, 0)).as_rgb(), (0, 0, 0));
    // the corner block sends light 2 across its three outer faces, the three blocks
    // next to it light 1 across their two
    assert_eq!(updates.len(), 9);
    let mut twos = 0;
    for (_, update) in &updates {
        match update {
            LightUpdate::EmittedLight(step) => {
                let (r, g, b) = step.light.as_rgb();
                assert!((r == 2 || r == 1) && g == 0 && b == 0);
                if r == 2 {
                    twos += 1;
                }
            }
            _ => panic!("only emitted light is sent"),
        }
    }
    assert_eq!(twos, 3);
}

#[test]
fn removed_lamp_casts_a_shadow_across_the_border() {
    let (mut chunk, _) = lit_chunk((31, 16, 16));
    chunk.set_block(LocalBlockPosition::new(31, 16, 16), AIR);
    assert!(chunk.requires_light_updates());
    let updates = chunk.update_lighting();
    assert!(!chunk.requires_light_updates());
    let light = chunk.light_store();
    assert_eq!(light.get_emitted_light(LocalBlockPosition::new(31, 16, 16)).as_rgb(), (0, 0, 0));
    assert_eq!(light.get_emitted_light(LocalBlockPosition::new(28, 16, 16)).as_rgb(), (0, 0, 0));
    let mut found = false;
    for (face, update) in &updates {
        match update {
            LightUpdate::EmittedLightShadow(step) => {
                if face.as_usize() == FaceIndex::pos_x().as_usize()
                    && step.position == LocalBlockPosition::new(0, 16, 16)
                {
                    assert_eq!(step.depth, 14);
                    found = true;
                }
            }
            LightUpdate::EmittedLight(step) => assert_ne!(step.light.as_rgb(), (0, 0, 0)),
            LightUpdate::Skylight(_) => panic!("no skylight was queued"),
        }
    }
    assert!(found);
}
