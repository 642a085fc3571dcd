use voxel_terrain::terrain::position_types::{ChunkPosition, GlobalBlockPosition, LocalBlockPosition};
use voxel_terrain::util::size::Size3;
use voxel_terrain::util::vector::{IVec3, UVec3};

#[test]
fn local_position_array_index_is_z_major() {
    let p = LocalBlockPosition::new(1, 2, 3);
    assert_eq!(p.get_array_index(), 1 + 32 * 2 + 1024 * 3);
}

#[test]
fn local_position_array_index_roundtrip() {
    for index in [0usize, 1, 31, 32, 1023, 1024, 20000, 32767] {
        let p = LocalBlockPosition::from_array_index(index);
        assert_eq!(p.get_array_index(), index);
    }
}

#[test]
fn global_position_splits_into_local_and_chunk() {
    let g = GlobalBlockPosition::new(-1, 33, 64);
    let (local, chunk) = g.get_local_and_chunk_pos();
    assert_eq!(local.as_uvec3(), UVec3::new(31, 1, 0));
    assert_eq!(chunk, ChunkPosition::new(-1, 1, 2));
    assert_eq!(GlobalBlockPosition::from_local_and_chunk_pos(local, chunk), g);
}

#[test]
fn local_position_try_add() {
    let p = LocalBlockPosition::new(31, 0, 5);
    assert_eq!(p.try_add(IVec3::new(1, 0, 0)), None);
    assert_eq!(p.try_add(IVec3::new(0, -1, 0)), None);
    assert_eq!(p.try_add(IVec3::new(-1, 2, 0)), Some(LocalBlockPosition::new(30, 2, 5)));
}

#[test]
fn chunk_position_plus_minus() {
    let a = ChunkPosition::new(1, -2, 3);
    let b = ChunkPosition::new(4, 5, -6);
    assert_eq!(a.plus(b), ChunkPosition::new(5, 3, -3));
    assert_eq!(a.plus(b).minus(b), a);
}

#[test]
fn size_flatten_orders_by_z_then_y_then_x() {
    let s = Size3::new(3, 4, 5);
    assert_eq!(s.product(), 60);
    assert_eq!(s.flatten(UVec3::new(2, 1, 0)), 2 + 3);
    assert_eq!(s.flatten(UVec3::new(0, 0, 1)), 12);
    assert_eq!(s.flatten(UVec3::new(2, 3, 4)), 59);
}
