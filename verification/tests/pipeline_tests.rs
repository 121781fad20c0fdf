use voxel_world::json::{JsonNumber, JsonValue};
use voxel_world::map_file::{apply_modifications, load_map_text, map_to_json, map_to_text, parse_map};
use voxel_world::mesh::{add_quad, add_quad_uvs, add_voxel, mesh_from_chunk, simulate_chunk_mesh, MeshData};
use voxel_world::seed_input::{parse_seed, SeedKey, TypedSeed};
use voxel_world::terrain::generate_chunk_from_heights;
use voxel_world::world::{BlockType, Chunk, IVec3, Octree, OctreeError};

fn empty_mesh() -> MeshData {
    MeshData { positions: Vec::new(), normals: Vec::new(), uvs: Vec::new(), indices: Vec::new() }
}

fn s(t: &str) -> String {
    t.to_string()
}

#[test]
fn quad_uvs_are_tile_corners() {
    assert_eq!(add_quad_uvs(2, 1), [(2, 1), (3, 1), (2, 2), (3, 2)]);
}

#[test]
fn add_quad_appends() {
    let mut m = empty_mesh();
    add_quad(&mut m, (2, 4, 6), (0, 1, 0), (-1, 1, -1), (1, 1, -1), (-1, 1, 1), (1, 1, 1), add_quad_uvs(0, 0));
    add_quad(&mut m, (0, 0, 0), (0, 0, 1), (-1, 1, 1), (1, 1, 1), (-1, -1, 1), (1, -1, 1), add_quad_uvs(1, 0));
    assert_eq!(m.positions.len(), 8);
    assert_eq!(m.positions[0], (1, 5, 5));
    assert_eq!(m.positions[3], (3, 5, 7));
    assert_eq!(m.normals[5], (0, 0, 1));
    assert_eq!(m.indices, vec![0, 2, 3, 0, 3, 1, 4, 6, 7, 4, 7, 5]);
    assert_eq!(m.uvs[4], (1, 0));
}

#[test]
fn lone_voxel_has_six_faces() {
    let mut m = empty_mesh();
    add_voxel(&mut m, 0, 0, 0, BlockType::Grass, &|_, _, _| false);
    assert_eq!(m.positions.len(), 24);
    assert_eq!(m.indices.len(), 36);
    // top face first, with the grass top tile
    assert_eq!(m.normals[0], (0, 1, 0));
    assert_eq!(m.uvs[0], (2, 0));
    // then bottom, with the grass bottom tile
    assert_eq!(m.normals[4], (0, -1, 0));
    assert_eq!(m.uvs[4], (1, 1));
    // then the sides
    assert_eq!(m.uvs[8], (0, 1));
}

#[test]
fn buried_voxel_has_no_face() {
    let mut m = empty_mesh();
    add_voxel(&mut m, 5, 5, 5, BlockType::Stone, &|_, _, _| true);
    assert_eq!(m.positions.len(), 0);
}

#[test]
fn chunk_mesh_of_two_blocks() {
    let mut c = Chunk::new(IVec3::new(0, 0, 0), BlockType::Air).unwrap();
    c.set_local(IVec3::new(0, 0, 0), BlockType::Stone).unwrap();
    c.set_local(IVec3::new(1, 0, 0), BlockType::Dirt).unwrap();
    let m = mesh_from_chunk(&c).unwrap();
    // two cubes side by side share one hidden face each
    assert_eq!(m.positions.len(), 10 * 4);
    assert_eq!(m.indices.len(), 10 * 6);
    assert!(m.indices.iter().all(|&i| (i as usize) < m.positions.len()));
}

#[test]
fn chunk_mesh_of_empty_chunk() {
    let c = Chunk::new(IVec3::new(0, 0, 0), BlockType::Air).unwrap();
    assert_eq!(mesh_from_chunk(&c).unwrap().positions.len(), 0);
}

#[test]
fn chunk_mesh_of_full_chunk() {
    let c = Chunk::new(IVec3::new(0, 0, 0), BlockType::Stone).unwrap();
    let m = mesh_from_chunk(&c).unwrap();
    // only the outer faces of the chunk
    assert_eq!(m.positions.len(), 6 * 32 * 32 * 4);
}

#[test]
fn chunk_mesh_refuses_small_octree() {
    let mut c = Chunk::new(IVec3::new(0, 0, 0), BlockType::Air).unwrap();
    c.octree = Octree::new(8, BlockType::Stone).unwrap();
    assert!(matches!(mesh_from_chunk(&c), Err(OctreeError::OutOfBounds)));
}

#[test]
fn demo_mesh_faces() {
    let m = simulate_chunk_mesh();
    // 255 floor tops, 256 floor sides, 24 pillar sides and the pillar top
    assert_eq!(m.positions.len(), 536 * 4);
    assert_eq!(m.indices.len(), 536 * 6);
    assert_eq!(m.normals.len(), m.positions.len());
}

#[test]
fn terrain_columns() {
    let mut heights = vec![vec![5u32; 32]; 32];
    heights[2][3] = 0;
    heights[4][1] = u32::MAX;
    let c = generate_chunk_from_heights(&heights, IVec3::new(0, 0, 0));
    assert!(c.is_dirty());
    assert_eq!(c.get_local(IVec3::new(0, 5, 0)).unwrap(), BlockType::Grass);
    assert_eq!(c.get_local(IVec3::new(0, 4, 0)).unwrap(), BlockType::Dirt);
    assert_eq!(c.get_local(IVec3::new(0, 2, 0)).unwrap(), BlockType::Dirt);
    assert_eq!(c.get_local(IVec3::new(0, 1, 0)).unwrap(), BlockType::Stone);
    assert_eq!(c.get_local(IVec3::new(0, 6, 0)).unwrap(), BlockType::Air);
    assert_eq!(c.get_local(IVec3::new(3, 0, 2)).unwrap(), BlockType::Grass);
    assert_eq!(c.get_local(IVec3::new(3, 1, 2)).unwrap(), BlockType::Air);
    assert_eq!(c.get_local(IVec3::new(1, 0, 4)).unwrap(), BlockType::Air);
}

#[test]
fn terrain_of_empty_columns_is_clean() {
    let heights = vec![vec![u32::MAX; 32]; 32];
    let c = generate_chunk_from_heights(&heights, IVec3::new(2, 0, 1));
    assert!(!c.is_dirty());
    assert_eq!(c.chunk_pos, IVec3::new(2, 0, 1));
    assert_eq!(c.get_local(IVec3::new(0, 0, 0)).unwrap(), BlockType::Air);
}

#[test]
fn map_round_trip() {
    let mods = vec![((1, 2, 3), BlockType::Air), ((-4, 0, 31), BlockType::Stone)];
    let v = map_to_json(77, &mods);
    let (seed, back) = parse_map(&v).unwrap();
    assert_eq!(seed, 77);
    assert_eq!(back, vec![(IVec3::new(1, 2, 3), BlockType::Air), (IVec3::new(-4, 0, 31), BlockType::Stone)]);
}

#[test]
fn map_json_shape() {
    let v = map_to_json(5, &vec![((-1, 0, 2), BlockType::Grass)]);
    match &v {
        JsonValue::Object(e) => {
            assert_eq!(e[0].0, "modifications");
            assert_eq!(e[1].0, "seed");
            assert!(matches!(e[1].1, JsonValue::Number(JsonNumber::PosInt(5))));
        }
        _ => panic!("not an object"),
    }
    let m = &v.get("modifications").unwrap().as_array().unwrap()[0];
    assert_eq!(m.get("type").unwrap().as_str(), Some("Grass"));
    assert_eq!(m.get("x").unwrap().as_i64(), Some(-1));
    assert_eq!(m.get("z").unwrap().as_u64(), Some(2));
}

#[test]
fn parse_map_without_seed() {
    let v = JsonValue::Object(vec![(s("modifications"), JsonValue::Array(vec![]))]);
    assert!(parse_map(&v).is_none());
    let v = JsonValue::Object(vec![(s("seed"), JsonValue::Number(JsonNumber::NegInt(-3)))]);
    assert!(parse_map(&v).is_none());
}

#[test]
fn parse_map_skips_incomplete_entries() {
    let entry_ok = JsonValue::Object(vec![
        (s("x"), JsonValue::Number(JsonNumber::PosInt(1))),
        (s("y"), JsonValue::Number(JsonNumber::PosInt(2))),
        (s("z"), JsonValue::Number(JsonNumber::NegInt(-3))),
        (s("type"), JsonValue::String(s("Dirt"))),
    ]);
    let entry_bad = JsonValue::Object(vec![
        (s("x"), JsonValue::Number(JsonNumber::PosInt(1))),
        (s("type"), JsonValue::String(s("Dirt"))),
    ]);
    let v = JsonValue::Object(vec![
        (s("seed"), JsonValue::Number(JsonNumber::PosInt(4294967296 + 9))),
        (s("modifications"), JsonValue::Array(vec![entry_bad, entry_ok])),
    ]);
    let (seed, mods) = parse_map(&v).unwrap();
    assert_eq!(seed, 9);
    assert_eq!(mods, vec![(IVec3::new(1, 2, -3), BlockType::Dirt)]);
}

#[test]
fn parse_map_without_list() {
    let v = JsonValue::Object(vec![(s("seed"), JsonValue::Number(JsonNumber::PosInt(12)))]);
    let (seed, mods) = parse_map(&v).unwrap();
    assert_eq!(seed, 12);
    assert!(mods.is_empty());
}

#[test]
fn apply_modifications_replays() {
    let mut c = Chunk::new(IVec3::new(0, 0, 0), BlockType::Air).unwrap();
    let mods = vec![
        (IVec3::new(1, 1, 1), BlockType::Stone),
        (IVec3::new(40, 0, 0), BlockType::Stone),
        (IVec3::new(1, 1, 1), BlockType::Grass),
    ];
    apply_modifications(&mut c, &mods);
    assert!(c.is_dirty());
    assert_eq!(c.get_local(IVec3::new(1, 1, 1)).unwrap(), BlockType::Grass);
    let mut clean = Chunk::new(IVec3::new(0, 0, 0), BlockType::Air).unwrap();
    apply_modifications(&mut clean, &vec![(IVec3::new(-1, 0, 0), BlockType::Stone)]);
    assert!(!clean.is_dirty());
}

#[test]
fn json_accessors() {
    let v = JsonValue::Object(vec![
        (s("a"), JsonValue::Bool(true)),
        (s("a"), JsonValue::Null),
        (s("n"), JsonValue::Number(JsonNumber::PosInt(u64::MAX))),
        (s("f"), JsonValue::Number(JsonNumber::Float(s("1.5")))),
    ]);
    assert!(matches!(v.get("a"), Some(JsonValue::Bool(true))));
    assert!(v.get("b").is_none());
    assert_eq!(v.get("n").unwrap().as_u64(), Some(u64::MAX));
    assert_eq!(v.get("n").unwrap().as_i64(), None);
    assert_eq!(v.get("f").unwrap().as_i64(), None);
    assert_eq!(v.get("f").unwrap().as_u64(), None);
    assert!(v.as_array().is_none());
    assert!(v.as_str().is_none());
    assert!(JsonValue::Null.get("a").is_none());
}

fn typed(t: &TypedSeed) -> String {
    t.0.iter().collect()
}

#[test]
fn seed_typing() {
    let mut t = TypedSeed::new();
    assert_eq!(t.key_pressed(&SeedKey::Character(s("1"))), None);
    assert_eq!(t.key_pressed(&SeedKey::Character(s("2a"))), None);
    assert_eq!(t.key_pressed(&SeedKey::Character(s("23"))), None);
    assert_eq!(typed(&t), "123");
    assert_eq!(t.key_pressed(&SeedKey::Backspace), None);
    assert_eq!(typed(&t), "12");
    assert_eq!(t.key_pressed(&SeedKey::Other), None);
    assert_eq!(t.key_pressed(&SeedKey::Enter), Some(12));
    assert_eq!(typed(&t), "");
    assert_eq!(t.key_pressed(&SeedKey::Enter), None);
    assert_eq!(t.key_pressed(&SeedKey::Backspace), None);
}

#[test]
fn seed_typing_overflow() {
    let mut t = TypedSeed::new();
    t.key_pressed(&SeedKey::Character(s("4294967296")));
    assert_eq!(t.key_pressed(&SeedKey::Enter), None);
    t.key_pressed(&SeedKey::Character(s("4294967295")));
    assert_eq!(t.key_pressed(&SeedKey::Enter), Some(u32::MAX));
}

#[test]
fn parse_seed_like_str_parse() {
    for text in ["", "+", "+7", "007", "12x", "-1", "4294967295", "4294967296", "99999999999"] {
        let chars: Vec<char> = text.chars().collect();
        assert_eq!(parse_seed(&chars), text.parse::<u32>().ok(), "{}", text);
    }
}

#[test]
fn map_text_round_trip() {
    let mods = vec![((3, 1, 0), BlockType::Dirt), ((0, -2, 5), BlockType::Air)];
    let text = map_to_text(42, &mods);
    let (seed, back) = load_map_text(&text).unwrap();
    assert_eq!(seed, 42);
    assert_eq!(back, vec![(IVec3::new(3, 1, 0), BlockType::Dirt), (IVec3::new(0, -2, 5), BlockType::Air)]);
}

#[test]
fn load_map_text_refusals() {
    assert!(load_map_text("not json").is_none());
    assert!(load_map_text(r#"{"modifications":[]}"#).is_none());
    let (seed, mods) = load_map_text(r#"{"seed":7,"modifications":[{"x":1,"y":2,"z":3,"type":"Stone"},{"x":1}]}"#).unwrap();
    assert_eq!(seed, 7);
    assert_eq!(mods, vec![(IVec3::new(1, 2, 3), BlockType::Stone)]);
}
