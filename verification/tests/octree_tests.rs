use voxel_world::json::{json_text, parse_json_text, JsonValue};
use voxel_world::world::{BlockType, IVec3, Octree, OctreeError};

fn demo_octree() -> Octree {
    let mut octree = Octree::new(8, BlockType::Air).unwrap();
    octree.set(IVec3::new(2, 3, 4), BlockType::Stone).unwrap();
    octree.set(IVec3::new(1, 1, 1), BlockType::Dirt).unwrap();
    octree
}

#[test]
fn save_json() {
    let octree = demo_octree();
    let text = octree.save_text();
    assert!(!text.is_empty());
    let reparsed: serde_json::Value = serde_json::from_str(&text).unwrap();
    assert_eq!(reparsed["type"], "null");
    assert_eq!(reparsed["children"].as_array().unwrap().len(), 8);
}

#[test]
fn load_json() {
    let text = demo_octree().save_text();
    let loaded = Octree::load_text(&text, 8).unwrap();

    assert_eq!(loaded.get(IVec3::new(2, 3, 4)).unwrap(), BlockType::Stone);
    assert_eq!(loaded.get(IVec3::new(1, 1, 1)).unwrap(), BlockType::Dirt);
    assert_eq!(loaded.get(IVec3::new(0, 0, 0)).unwrap(), BlockType::Air);
}

#[test]
fn load_text_refusals() {
    assert!(matches!(Octree::load_text("{not json", 8), Err(OctreeError::LoadFailed)));
    assert!(matches!(Octree::load_text(r#"{"type":3}"#, 8), Err(OctreeError::LoadFailed)));
    assert!(matches!(Octree::load_text(r#"{"type":"Dirt"}"#, 8), Ok(_)));
}

#[test]
fn json_text_of_a_leaf() {
    let octree = Octree::new(4, BlockType::Grass).unwrap();
    assert_eq!(json_text(&octree.to_json()), r#"{"children":null,"type":"Grass"}"#);
}

#[test]
fn json_round_trip_keeps_leaves() {
    let octree = demo_octree();
    let back = Octree::from_json(&octree.to_json(), octree.size()).unwrap();
    assert_eq!(back.leaves(), octree.leaves());
}

#[test]
fn from_json_rejects_bad_documents() {
    let v = parse_json_text(r#"{"children":[],"type":"null"}"#).unwrap();
    assert!(Octree::from_json(&v, 8).is_none());
    let v = parse_json_text(r#"{"children":null}"#).unwrap();
    assert!(Octree::from_json(&v, 8).is_none());
    let v = parse_json_text(r#"{"type":3}"#).unwrap();
    assert!(Octree::from_json(&v, 8).is_none());
    let v = parse_json_text(r#"[1, 2]"#).unwrap();
    assert!(Octree::from_json(&v, 8).is_none());
}

#[test]
fn from_json_reads_unknown_names_as_air() {
    let v = parse_json_text(r#"{"type":"Lava"}"#).unwrap();
    let t = Octree::from_json(&v, 2).unwrap();
    assert_eq!(t.get(IVec3::new(1, 1, 1)).unwrap(), BlockType::Air);
    let v = parse_json_text(r#"{"type":"Stone","extra":1}"#).unwrap();
    let t = Octree::from_json(&v, 2).unwrap();
    assert_eq!(t.get(IVec3::new(0, 1, 0)).unwrap(), BlockType::Stone);
}

#[test]
fn new_requires_power_of_two() {
    assert!(matches!(Octree::new(0, BlockType::Air), Err(OctreeError::InvalidSize)));
    assert!(matches!(Octree::new(6, BlockType::Air), Err(OctreeError::InvalidSize)));
    assert!(Octree::new(1, BlockType::Air).is_ok());
    assert!(Octree::new(32, BlockType::Stone).is_ok());
    assert_eq!(Octree::new(16, BlockType::Dirt).unwrap().size(), 16);
}

#[test]
fn new_is_filled() {
    let t = Octree::new(4, BlockType::Stone).unwrap();
    assert_eq!(t.get(IVec3::new(3, 0, 2)).unwrap(), BlockType::Stone);
    assert_eq!(t.leaves(), vec![(IVec3::new(0, 0, 0), 4, BlockType::Stone)]);
}

#[test]
fn get_out_of_bounds() {
    let t = Octree::new(4, BlockType::Stone).unwrap();
    assert!(matches!(t.get(IVec3::new(4, 0, 0)), Err(OctreeError::OutOfBounds)));
    assert!(matches!(t.get(IVec3::new(0, -1, 0)), Err(OctreeError::OutOfBounds)));
}

#[test]
fn set_then_get() {
    let mut t = Octree::new(16, BlockType::Air).unwrap();
    t.set(IVec3::new(5, 9, 13), BlockType::Grass).unwrap();
    assert_eq!(t.get(IVec3::new(5, 9, 13)).unwrap(), BlockType::Grass);
    assert_eq!(t.get(IVec3::new(5, 9, 12)).unwrap(), BlockType::Air);
    assert!(matches!(t.set(IVec3::new(16, 0, 0), BlockType::Stone), Err(OctreeError::OutOfBounds)));
}

#[test]
fn set_back_merges() {
    let mut t = Octree::new(8, BlockType::Air).unwrap();
    t.set(IVec3::new(3, 3, 3), BlockType::Stone).unwrap();
    assert!(t.leaves().len() > 1);
    t.set(IVec3::new(3, 3, 3), BlockType::Air).unwrap();
    assert_eq!(t.leaves(), vec![(IVec3::new(0, 0, 0), 8, BlockType::Air)]);
}

#[test]
fn remove_writes_air() {
    let mut t = Octree::new(4, BlockType::Dirt).unwrap();
    t.remove(IVec3::new(1, 2, 3)).unwrap();
    assert_eq!(t.get(IVec3::new(1, 2, 3)).unwrap(), BlockType::Air);
    assert_eq!(t.get(IVec3::new(1, 2, 2)).unwrap(), BlockType::Dirt);
    assert!(matches!(t.remove(IVec3::new(-1, 0, 0)), Err(OctreeError::OutOfBounds)));
}

#[test]
fn move_block_moves() {
    let mut t = Octree::new(4, BlockType::Air).unwrap();
    t.set(IVec3::new(0, 0, 0), BlockType::Stone).unwrap();
    t.move_block(IVec3::new(0, 0, 0), IVec3::new(3, 3, 3)).unwrap();
    assert_eq!(t.get(IVec3::new(0, 0, 0)).unwrap(), BlockType::Air);
    assert_eq!(t.get(IVec3::new(3, 3, 3)).unwrap(), BlockType::Stone);
    assert!(matches!(t.move_block(IVec3::new(0, 0, 0), IVec3::new(4, 0, 0)), Err(OctreeError::OutOfBounds)));
    t.move_block(IVec3::new(3, 3, 3), IVec3::new(3, 3, 3)).unwrap();
    assert_eq!(t.get(IVec3::new(3, 3, 3)).unwrap(), BlockType::Stone);
}

#[test]
fn fill_region_fills_box() {
    let mut t = Octree::new(8, BlockType::Air).unwrap();
    t.fill_region(IVec3::new(1, 1, 1), IVec3::new(2, 3, 4), BlockType::Stone).unwrap();
    assert_eq!(t.get(IVec3::new(1, 1, 1)).unwrap(), BlockType::Stone);
    assert_eq!(t.get(IVec3::new(2, 3, 4)).unwrap(), BlockType::Stone);
    assert_eq!(t.get(IVec3::new(2, 2, 3)).unwrap(), BlockType::Stone);
    assert_eq!(t.get(IVec3::new(3, 3, 4)).unwrap(), BlockType::Air);
    assert_eq!(t.get(IVec3::new(0, 1, 1)).unwrap(), BlockType::Air);
    let mut count = 0;
    t.visit_leaves(|_, side, block| {
        if block == BlockType::Stone {
            count += side * side * side;
        }
    });
    assert_eq!(count, 2 * 3 * 4);
}

#[test]
fn fill_region_refusals() {
    let mut t = Octree::new(8, BlockType::Air).unwrap();
    assert!(matches!(
        t.fill_region(IVec3::new(2, 1, 1), IVec3::new(1, 3, 4), BlockType::Stone),
        Err(OctreeError::OutOfBounds)
    ));
    assert!(matches!(
        t.fill_region(IVec3::new(1, 1, 1), IVec3::new(8, 3, 4), BlockType::Stone),
        Err(OctreeError::OutOfBounds)
    ));
    assert_eq!(t.leaves().len(), 1);
}

#[test]
fn fill_whole_cube_merges() {
    let mut t = Octree::new(4, BlockType::Air).unwrap();
    t.fill_region(IVec3::new(0, 0, 0), IVec3::new(3, 3, 3), BlockType::Dirt).unwrap();
    assert_eq!(t.leaves(), vec![(IVec3::new(0, 0, 0), 4, BlockType::Dirt)]);
}

#[test]
fn clear_fills() {
    let mut t = demo_octree();
    t.clear(BlockType::Grass);
    assert_eq!(t.get(IVec3::new(2, 3, 4)).unwrap(), BlockType::Grass);
    assert_eq!(t.leaves().len(), 1);
}

#[test]
fn leaves_order_and_sides() {
    let mut t = Octree::new(2, BlockType::Air).unwrap();
    t.set(IVec3::new(1, 0, 0), BlockType::Stone).unwrap();
    let leaves = t.leaves();
    assert_eq!(leaves.len(), 8);
    assert_eq!(leaves[0], (IVec3::new(0, 0, 0), 1, BlockType::Air));
    assert_eq!(leaves[1], (IVec3::new(1, 0, 0), 1, BlockType::Stone));
    assert_eq!(leaves[7], (IVec3::new(1, 1, 1), 1, BlockType::Air));
}

#[test]
fn last_write_wins_example() {
    let mut t = Octree::new(4, BlockType::Air).unwrap();
    t.set(IVec3::new(1, 1, 1), BlockType::Stone).unwrap();
    t.set(IVec3::new(1, 1, 1), BlockType::Dirt).unwrap();
    assert_eq!(t.get(IVec3::new(1, 1, 1)).unwrap(), BlockType::Dirt);
}

#[test]
fn writes_commute_example() {
    let mut a = Octree::new(4, BlockType::Air).unwrap();
    let mut b = Octree::new(4, BlockType::Air).unwrap();
    a.set(IVec3::new(0, 1, 2), BlockType::Stone).unwrap();
    a.set(IVec3::new(3, 2, 1), BlockType::Grass).unwrap();
    b.set(IVec3::new(3, 2, 1), BlockType::Grass).unwrap();
    b.set(IVec3::new(0, 1, 2), BlockType::Stone).unwrap();
    assert_eq!(a.leaves(), b.leaves());
}

#[test]
fn rewrite_is_identity_example() {
    let mut t = demo_octree();
    let before = t.leaves();
    t.set(IVec3::new(2, 3, 4), BlockType::Stone).unwrap();
    assert_eq!(t.leaves(), before);
}

#[test]
fn move_there_and_back_example() {
    let mut t = demo_octree();
    t.move_block(IVec3::new(2, 3, 4), IVec3::new(7, 7, 7)).unwrap();
    t.move_block(IVec3::new(7, 7, 7), IVec3::new(2, 3, 4)).unwrap();
    assert_eq!(t.get(IVec3::new(2, 3, 4)).unwrap(), BlockType::Stone);
    assert_eq!(t.get(IVec3::new(7, 7, 7)).unwrap(), BlockType::Air);
    assert_eq!(t.leaves(), demo_octree().leaves());
}

#[test]
fn non_power_of_two_side_from_json() {
    let t = Octree::from_json(&JsonValue::Object(vec![(
        "type".to_string(),
        JsonValue::String("Stone".to_string()),
    )]), 3)
    .unwrap();
    assert_eq!(t.size(), 3);
    assert_eq!(t.get(IVec3::new(2, 2, 2)).unwrap(), BlockType::Stone);
}

#[test]
fn same_blocks_give_same_leaves() {
    // one tree filled by a region, the other voxel by voxel in another order
    let mut a = Octree::new(4, BlockType::Air).unwrap();
    a.fill_region(IVec3::new(2, 0, 0), IVec3::new(3, 1, 1), BlockType::Stone).unwrap();
    a.set(IVec3::new(0, 0, 0), BlockType::Dirt).unwrap();

    let mut b = Octree::new(4, BlockType::Grass).unwrap();
    b.clear(BlockType::Air);
    b.set(IVec3::new(0, 0, 0), BlockType::Dirt).unwrap();
    for z in (0..2).rev() {
        for y in (0..2).rev() {
            for x in (2..4).rev() {
                b.set(IVec3::new(x, y, z), BlockType::Stone).unwrap();
            }
        }
    }
    // a detour that comes back
    b.set(IVec3::new(3, 3, 3), BlockType::Grass).unwrap();
    b.move_block(IVec3::new(3, 3, 3), IVec3::new(0, 3, 0)).unwrap();
    b.remove(IVec3::new(0, 3, 0)).unwrap();

    assert_eq!(a.leaves(), b.leaves());
    // octant 1 is one stone leaf of side 2; octant 0 split into voxels
    let leaves = a.leaves();
    assert!(leaves.contains(&(IVec3::new(2, 0, 0), 2, BlockType::Stone)));
    assert!(leaves.contains(&(IVec3::new(0, 0, 0), 1, BlockType::Dirt)));
    assert_eq!(leaves.len(), 8 + 7);
}

#[test]
fn write_reaches_the_cell_in_an_odd_cube() {
    // side 3 halves to 1: positions x = 1 and x = 2 share a cell
    let mut t = Octree::from_json(&JsonValue::Object(vec![(
        "type".to_string(),
        JsonValue::String("Air".to_string()),
    )]), 3)
    .unwrap();
    t.set(IVec3::new(2, 0, 0), BlockType::Stone).unwrap();
    assert_eq!(t.get(IVec3::new(2, 0, 0)).unwrap(), BlockType::Stone);
    assert_eq!(t.get(IVec3::new(1, 0, 0)).unwrap(), BlockType::Stone);
    assert_eq!(t.get(IVec3::new(0, 0, 0)).unwrap(), BlockType::Air);
    assert_eq!(t.get(IVec3::new(2, 1, 0)).unwrap(), BlockType::Air);
    assert_eq!(t.get(IVec3::new(2, 0, 1)).unwrap(), BlockType::Air);
}

#[test]
fn leaves_tile_the_cube() {
    let t = demo_octree();
    let leaves = t.leaves();
    let volume: u64 = leaves.iter().map(|(_, s, _)| (*s as u64).pow(3)).sum();
    assert_eq!(volume, 8 * 8 * 8);
    for (corner, side, block) in &leaves {
        for dz in 0..*side as i32 {
            for dy in 0..*side as i32 {
                for dx in 0..*side as i32 {
                    let q = IVec3::new(corner.x + dx, corner.y + dy, corner.z + dz);
                    assert_eq!(t.get(q).unwrap(), *block);
                }
            }
        }
    }
}

#[test]
fn refused_writes_leave_the_tree_alone() {
    let mut t = demo_octree();
    let before = t.leaves();
    assert_eq!(t.set(IVec3::new(8, 0, 0), BlockType::Stone), Err(OctreeError::OutOfBounds));
    assert_eq!(t.remove(IVec3::new(0, -1, 0)), Err(OctreeError::OutOfBounds));
    assert_eq!(t.move_block(IVec3::new(2, 3, 4), IVec3::new(0, 0, 9)), Err(OctreeError::OutOfBounds));
    assert_eq!(t.fill_region(IVec3::new(3, 0, 0), IVec3::new(1, 1, 1), BlockType::Dirt), Err(OctreeError::OutOfBounds));
    assert_eq!(t.leaves(), before);
}

#[test]
fn new_and_clear_give_one_leaf() {
    let mut t = Octree::new(16, BlockType::Dirt).unwrap();
    assert_eq!(t.leaves(), vec![(IVec3::new(0, 0, 0), 16, BlockType::Dirt)]);
    t.set(IVec3::new(3, 3, 3), BlockType::Stone).unwrap();
    t.clear(BlockType::Grass);
    assert_eq!(t.leaves(), vec![(IVec3::new(0, 0, 0), 16, BlockType::Grass)]);
}

#[test]
fn eight_equal_voxels_become_one_leaf() {
    let mut t = Octree::new(4, BlockType::Air).unwrap();
    for z in 0..2 {
        for y in 0..2 {
            for x in 2..4 {
                t.set(IVec3::new(x, y, z), BlockType::Stone).unwrap();
            }
        }
    }
    let leaves = t.leaves();
    assert!(leaves.contains(&(IVec3::new(2, 0, 0), 2, BlockType::Stone)));
    assert!(!leaves.contains(&(IVec3::new(2, 0, 0), 1, BlockType::Stone)));
    assert_eq!(leaves.len(), 8);
}

#[test]
fn visit_leaves_calls_each_leaf_in_order() {
    let mut t = Octree::new(2, BlockType::Air).unwrap();
    t.set(IVec3::new(1, 0, 0), BlockType::Stone).unwrap();
    let mut seen = Vec::new();
    t.visit_leaves(|corner, side, block| seen.push((corner, side, block)));
    let mut expected = Vec::new();
    for k in 0..8 {
        let corner = IVec3::new(k & 1, (k >> 1) & 1, (k >> 2) & 1);
        let block = if k == 1 { BlockType::Stone } else { BlockType::Air };
        expected.push((corner, 1, block));
    }
    assert_eq!(seen, expected);
    assert_eq!(t.leaves(), expected);
}

#[test]
fn to_json_document_after_a_write() {
    let mut t = Octree::new(2, BlockType::Air).unwrap();
    t.set(IVec3::new(1, 0, 0), BlockType::Stone).unwrap();
    let air = r#"{"children":null,"type":"Air"}"#;
    let stone = r#"{"children":null,"type":"Stone"}"#;
    let expected = format!(
        r#"{{"children":[{air},{stone},{air},{air},{air},{air},{air},{air}],"type":"null"}}"#
    );
    assert_eq!(json_text(&t.to_json()), expected);
}

#[test]
fn odd_sided_tree_saves_and_loads() {
    let mut t = Octree::from_json(&parse_json_text(r#"{"type":"Air"}"#).unwrap(), 3).unwrap();
    t.set(IVec3::new(2, 0, 0), BlockType::Stone).unwrap();
    let back = Octree::load_text(&t.save_text(), 3).unwrap();
    assert_eq!(back.leaves(), t.leaves());
    assert_eq!(back.get(IVec3::new(1, 0, 0)).unwrap(), BlockType::Stone);
}

#[test]
fn one_leaf_tree_of_any_side_lists_its_leaf() {
    let t = Octree::from_json(&parse_json_text(r#"{"type":"Dirt"}"#).unwrap(), 3_000_000_000).unwrap();
    assert_eq!(t.leaves(), vec![(IVec3::new(0, 0, 0), 3_000_000_000, BlockType::Dirt)]);
}
