use voxel_world::world::voxel::BlockFace;
use voxel_world::world::{BlockType, Chunk, ChunkManager, IVec3, OctreeError, CHUNK_SIZE};

#[test]
fn block_kinds() {
    assert!(BlockType::Air.is_empty());
    assert!(!BlockType::Air.is_solid());
    assert!(BlockType::Stone.is_solid());
    assert!(!BlockType::Grass.is_empty());
}

#[test]
fn atlas_tiles() {
    assert_eq!(BlockType::Air.atlas_tile(BlockFace::Top), None);
    assert_eq!(BlockType::Stone.atlas_tile(BlockFace::Side), Some((0, 0)));
    assert_eq!(BlockType::Dirt.atlas_tile(BlockFace::Bottom), Some((1, 0)));
    assert_eq!(BlockType::Grass.atlas_tile(BlockFace::Top), Some((2, 0)));
    assert_eq!(BlockType::Grass.atlas_tile(BlockFace::Side), Some((0, 1)));
    assert_eq!(BlockType::Grass.atlas_tile(BlockFace::Bottom), Some((1, 1)));
}

#[test]
fn block_names() {
    assert_eq!(BlockType::Grass.name(), "Grass");
    assert_eq!(BlockType::from_name(&"Dirt".to_string()), BlockType::Dirt);
    assert_eq!(BlockType::from_name(&"dirt".to_string()), BlockType::Air);
    for b in [BlockType::Air, BlockType::Grass, BlockType::Dirt, BlockType::Stone] {
        assert_eq!(BlockType::from_name(&b.name().to_string()), b);
    }
}

#[test]
fn ivec3_new() {
    let p = IVec3::new(1, -2, 3);
    assert_eq!((p.x, p.y, p.z), (1, -2, 3));
}

#[test]
fn chunk_new_is_clean() {
    let c = Chunk::new(IVec3::new(1, 0, -1), BlockType::Air).unwrap();
    assert!(!c.is_dirty());
    assert_eq!(c.chunk_pos, IVec3::new(1, 0, -1));
    assert_eq!(c.octree.size(), CHUNK_SIZE);
    assert_eq!(c.get_local(IVec3::new(31, 31, 31)).unwrap(), BlockType::Air);
}

#[test]
fn chunk_set_marks_dirty() {
    let mut c = Chunk::new(IVec3::new(0, 0, 0), BlockType::Air).unwrap();
    c.set_local(IVec3::new(4, 5, 6), BlockType::Stone).unwrap();
    assert!(c.is_dirty());
    assert_eq!(c.get_local(IVec3::new(4, 5, 6)).unwrap(), BlockType::Stone);
    c.clear_dirty();
    assert!(!c.is_dirty());
    c.remove_local(IVec3::new(4, 5, 6)).unwrap();
    assert!(c.is_dirty());
    assert_eq!(c.get_local(IVec3::new(4, 5, 6)).unwrap(), BlockType::Air);
}

#[test]
fn chunk_refusal_keeps_clean() {
    let mut c = Chunk::new(IVec3::new(0, 0, 0), BlockType::Air).unwrap();
    assert!(matches!(c.set_local(IVec3::new(32, 0, 0), BlockType::Stone), Err(OctreeError::OutOfBounds)));
    assert!(matches!(c.remove_local(IVec3::new(0, 0, -1)), Err(OctreeError::OutOfBounds)));
    assert!(!c.is_dirty());
    assert!(matches!(c.get_local(IVec3::new(0, 32, 0)), Err(OctreeError::OutOfBounds)));
}

#[test]
fn world_split() {
    let (c, l) = ChunkManager::world_to_chunk_and_local(IVec3::new(-1, 33, 64));
    assert_eq!(c, IVec3::new(-1, 1, 2));
    assert_eq!(l, IVec3::new(31, 1, 0));
    let (c, l) = ChunkManager::world_to_chunk_and_local(IVec3::new(i32::MIN, 0, i32::MAX));
    assert_eq!(c.x * 32 + l.x, i32::MIN);
    assert_eq!(c.z * 32 + l.z, i32::MAX);
}

#[test]
fn world_access_without_chunks() {
    let mut m = ChunkManager::new();
    assert_eq!(m.get_block_world(IVec3::new(5, 5, 5)).unwrap(), BlockType::Air);
    assert!(m.set_block_world(IVec3::new(5, 5, 5), BlockType::Stone).is_ok());
    assert_eq!(m.get_block_world(IVec3::new(5, 5, 5)).unwrap(), BlockType::Air);
    assert!(!m.is_solid_world(IVec3::new(5, 5, 5)));
}

#[test]
fn world_read_after_write() {
    let mut m = ChunkManager::new();
    let chunk = Chunk::new(IVec3::new(-1, 0, 0), BlockType::Air).unwrap();
    assert!(m.insert_chunk(IVec3::new(-1, 0, 0), chunk).is_none());
    m.set_block_world(IVec3::new(-3, 2, 7), BlockType::Dirt).unwrap();
    assert_eq!(m.get_block_world(IVec3::new(-3, 2, 7)).unwrap(), BlockType::Dirt);
    assert!(m.is_solid_world(IVec3::new(-3, 2, 7)));
    assert!(!m.is_solid_world(IVec3::new(3, 2, 7)));
    let c = m.get_chunk(IVec3::new(-1, 0, 0)).unwrap();
    assert!(c.is_dirty());
    assert_eq!(c.get_local(IVec3::new(29, 2, 7)).unwrap(), BlockType::Dirt);
}

#[test]
fn insert_chunk_replaces() {
    let mut m = ChunkManager::new();
    m.insert_chunk(IVec3::new(0, 0, 0), Chunk::new(IVec3::new(0, 0, 0), BlockType::Air).unwrap());
    let old = m.insert_chunk(IVec3::new(0, 0, 0), Chunk::new(IVec3::new(0, 0, 0), BlockType::Stone).unwrap());
    assert!(old.is_some());
    assert_eq!(old.unwrap().get_local(IVec3::new(0, 0, 0)).unwrap(), BlockType::Air);
    assert_eq!(m.get_block_world(IVec3::new(0, 0, 0)).unwrap(), BlockType::Stone);
    assert_eq!(m.loaded_chunks.len(), 1);
    assert!(m.get_chunk(IVec3::new(1, 0, 0)).is_none());
}

#[test]
fn any_solid_in_box_finds_blocks() {
    let mut m = ChunkManager::new();
    m.insert_chunk(IVec3::new(0, 0, 0), Chunk::new(IVec3::new(0, 0, 0), BlockType::Air).unwrap());
    m.set_block_world(IVec3::new(3, 4, 5), BlockType::Stone).unwrap();
    assert!(m.any_solid_in_box(IVec3::new(0, 0, 0), IVec3::new(3, 4, 5)));
    assert!(!m.any_solid_in_box(IVec3::new(0, 0, 0), IVec3::new(3, 4, 4)));
    assert!(!m.any_solid_in_box(IVec3::new(4, 0, 0), IVec3::new(3, 10, 10)));
    assert!(!m.any_solid_in_box(IVec3::new(i32::MAX - 1, 0, 0), IVec3::new(i32::MAX, 0, 0)));
}

#[test]
fn chunk_keys_are_distinct() {
    assert_eq!(ChunkManager::key_of(IVec3::new(i32::MIN, i32::MIN, i32::MIN)), 0);
    assert_eq!(ChunkManager::key_of(IVec3::new(0, 0, 0)), (1u128 << 95) + (1u128 << 63) + (1u128 << 31));
    assert_ne!(ChunkManager::key_of(IVec3::new(1, 0, 0)), ChunkManager::key_of(IVec3::new(0, 1, 0)));
    let mut m = ChunkManager::new();
    m.insert_chunk(IVec3::new(-1, 0, 0), Chunk::new(IVec3::new(-1, 0, 0), BlockType::Dirt).unwrap());
    m.insert_chunk(IVec3::new(0, 0, -1), Chunk::new(IVec3::new(0, 0, -1), BlockType::Grass).unwrap());
    assert_eq!(m.get_block_world(IVec3::new(-1, 0, 0)).unwrap(), BlockType::Dirt);
    assert_eq!(m.get_block_world(IVec3::new(0, 0, -1)).unwrap(), BlockType::Grass);
    assert_eq!(m.get_block_world(IVec3::new(0, 0, 0)).unwrap(), BlockType::Air);
}

#[test]
fn local_to_world_inverts_the_split() {
    let w = ChunkManager::local_to_world(IVec3::new(-1, 2, 0), IVec3::new(31, 0, 5));
    assert_eq!(w, IVec3::new(-1, 64, 5));
    assert_eq!(
        ChunkManager::world_to_chunk_and_local(w),
        (IVec3::new(-1, 2, 0), IVec3::new(31, 0, 5))
    );
}
