//! Chunk meshing: the visible faces of solid voxels, as quads.
//!
//! Coordinates are kept exact in integers. A vertex position is given in
//! half voxels (voxel `x` spans `2x - 1 ..= 2x + 1`), and a texture
//! coordinate in atlas tiles (the atlas is `ATLAS_COLS` by `ATLAS_ROWS`
//! tiles); dividing by 2 and by the atlas size gives the float values a
//! renderer takes.

use vstd::prelude::*;

use crate::world::chunk::{Chunk, CHUNK_SIZE};
use crate::world::errors::OctreeError;
use crate::world::octree::in_cube;
use crate::world::position::IVec3;
use crate::world::voxel::{BlockFace, BlockType, tile_of};

verus! {

/// Columns of the texture atlas.
pub const ATLAS_COLS: u32 = 3;

/// Rows of the texture atlas.
pub const ATLAS_ROWS: u32 = 2;

/// Vertex data for a triangle list: positions in half voxels, normals,
/// texture coordinates in atlas tiles, and vertex indices.
pub struct MeshData {
    pub positions: Vec<(i64, i64, i64)>,
    pub normals: Vec<(i32, i32, i32)>,
    pub uvs: Vec<(u32, u32)>,
    pub indices: Vec<u32>,
}

/// The contents of a `MeshData`.
pub ghost struct MeshView {
    pub positions: Seq<(i64, i64, i64)>,
    pub normals: Seq<(i32, i32, i32)>,
    pub uvs: Seq<(u32, u32)>,
    pub indices: Seq<u32>,
}

impl View for MeshData {
    type V = MeshView;

    open spec fn view(&self) -> MeshView {
        MeshView {
            positions: self.positions@,
            normals: self.normals@,
            uvs: self.uvs@,
            indices: self.indices@,
        }
    }
}

/// Every vertex has a normal and a texture coordinate, the indices come in
/// whole triangles (two per four vertices), and each index names a vertex.
pub open spec fn mesh_wf(m: MeshView) -> bool {
    &&& m.normals.len() == m.positions.len()
    &&& m.uvs.len() == m.positions.len()
    &&& 2 * m.indices.len() == 3 * m.positions.len()
    &&& forall|i: int| 0 <= i < m.indices.len() ==> #[trigger] m.indices[i] < m.positions.len()
}

/// The mesh with no vertex.
pub open spec fn empty_mesh() -> MeshView {
    MeshView { positions: Seq::empty(), normals: Seq::empty(), uvs: Seq::empty(), indices: Seq::empty() }
}

pub open spec fn add3(a: (i64, i64, i64), b: (i64, i64, i64)) -> (i64, i64, i64) {
    ((a.0 + b.0) as i64, (a.1 + b.1) as i64, (a.2 + b.2) as i64)
}

/// `a + b` fits in `i64` on every axis.
pub open spec fn fits_i64(a: (i64, i64, i64), b: (i64, i64, i64)) -> bool {
    &&& i64::MIN <= a.0 + b.0 <= i64::MAX
    &&& i64::MIN <= a.1 + b.1 <= i64::MAX
    &&& i64::MIN <= a.2 + b.2 <= i64::MAX
}

/// `m` with one more quad: four vertices at `offset` plus the corners
/// (top left, top right, bottom left, bottom right), all with `normal`,
/// and the two triangles (0, 2, 3) and (0, 3, 1) over them.
pub open spec fn with_quad(
    m: MeshView,
    offset: (i64, i64, i64),
    normal: (i32, i32, i32),
    corners: Seq<(i64, i64, i64)>,
    face_uvs: Seq<(u32, u32)>,
) -> MeshView {
    let s = m.positions.len();
    MeshView {
        positions: m.positions + seq![
            add3(offset, corners[0]),
            add3(offset, corners[1]),
            add3(offset, corners[2]),
            add3(offset, corners[3]),
        ],
        normals: m.normals + seq![normal, normal, normal, normal],
        uvs: m.uvs + face_uvs,
        indices: m.indices + seq![
            s as u32,
            (s + 2) as u32,
            (s + 3) as u32,
            s as u32,
            (s + 3) as u32,
            (s + 1) as u32,
        ],
    }
}

/// The corners of atlas tile `(col, row)`, in the order of a quad's
/// corners: `(col, row)`, `(col + 1, row)`, `(col, row + 1)`,
/// `(col + 1, row + 1)`.
pub open spec fn tile_corners(col: u32, row: u32) -> Seq<(u32, u32)> {
    seq![(col, row), ((col + 1) as u32, row), (col, (row + 1) as u32), ((col + 1) as u32, (row + 1) as u32)]
}

/// The faces of a voxel, in the order they are emitted: top (+y),
/// bottom (-y), right (+x), left (-x), front (+z), back (-z). Face `k`
/// looks towards the neighbour at `face_dir(k)`, which is also its normal.
pub open spec fn face_dir(k: int) -> (i32, i32, i32) {
    if k == 0 {
        (0i32, 1i32, 0i32)
    } else if k == 1 {
        (0i32, -1i32, 0i32)
    } else if k == 2 {
        (1i32, 0i32, 0i32)
    } else if k == 3 {
        (-1i32, 0i32, 0i32)
    } else if k == 4 {
        (0i32, 0i32, 1i32)
    } else {
        (0i32, 0i32, -1i32)
    }
}

/// The corners of face `k` in half voxels from the voxel's centre: top
/// left, top right, bottom left, bottom right.
pub open spec fn face_corners(k: int) -> Seq<(i64, i64, i64)> {
    if k == 0 {
        seq![(-1i64, 1i64, -1i64), (1i64, 1i64, -1i64), (-1i64, 1i64, 1i64), (1i64, 1i64, 1i64)]
    } else if k == 1 {
        seq![(-1i64, -1i64, 1i64), (1i64, -1i64, 1i64), (-1i64, -1i64, -1i64), (1i64, -1i64, -1i64)]
    } else if k == 2 {
        seq![(1i64, 1i64, 1i64), (1i64, 1i64, -1i64), (1i64, -1i64, 1i64), (1i64, -1i64, -1i64)]
    } else if k == 3 {
        seq![(-1i64, 1i64, -1i64), (-1i64, 1i64, 1i64), (-1i64, -1i64, -1i64), (-1i64, -1i64, 1i64)]
    } else if k == 4 {
        seq![(-1i64, 1i64, 1i64), (1i64, 1i64, 1i64), (-1i64, -1i64, 1i64), (1i64, -1i64, 1i64)]
    } else {
        seq![(1i64, 1i64, -1i64), (-1i64, 1i64, -1i64), (1i64, -1i64, -1i64), (-1i64, -1i64, -1i64)]
    }
}

/// Which side of the block face `k` shows.
pub open spec fn face_kind(k: int) -> BlockFace {
    if k == 0 {
        BlockFace::Top
    } else if k == 1 {
        BlockFace::Bottom
    } else {
        BlockFace::Side
    }
}

/// The neighbour of voxel `(x, y, z)` that face `k` looks towards.
pub open spec fn neighbour(x: i32, y: i32, z: i32, k: int) -> (i32, i32, i32) {
    ((x + face_dir(k).0) as i32, (y + face_dir(k).1) as i32, (z + face_dir(k).2) as i32)
}

/// `m` with face `f` of the voxel at `(x, y, z)` holding `block`, unless
/// the face is hidden.
pub open spec fn face_step(m: MeshView, x: i32, y: i32, z: i32, block: BlockType, hidden: bool, f: int) -> MeshView {
    if hidden {
        m
    } else {
        let tile = tile_of(block, face_kind(f)).unwrap();
        with_quad(
            m,
            ((2 * x) as i64, (2 * y) as i64, (2 * z) as i64),
            face_dir(f),
            face_corners(f),
            tile_corners(tile.0, tile.1),
        )
    }
}

/// `m` with the faces `0..k` of the voxel at `(x, y, z)` holding `block`
/// that are not hidden (`hidden[f]`: the neighbour behind face `f` is solid).
pub open spec fn with_faces(
    m: MeshView,
    x: i32,
    y: i32,
    z: i32,
    block: BlockType,
    hidden: Seq<bool>,
    k: int,
) -> MeshView
    decreases k,
{
    if k <= 0 {
        m
    } else {
        face_step(with_faces(m, x, y, z, block, hidden, k - 1), x, y, z, block, hidden[k - 1], k - 1)
    }
}

/// `m` with the visible faces of the voxel at `(x, y, z)` holding `block`,
/// where `solid` tells which neighbours hide a face.
pub open spec fn with_voxel(
    m: MeshView,
    x: i32,
    y: i32,
    z: i32,
    block: BlockType,
    solid: spec_fn(i32, i32, i32) -> bool,
) -> MeshView {
    with_faces(m, x, y, z, block, hidden_faces(x, y, z, solid), 6)
}

/// For each face of the voxel at `(x, y, z)`, whether the neighbour behind
/// it is solid.
pub open spec fn hidden_faces(x: i32, y: i32, z: i32, solid: spec_fn(i32, i32, i32) -> bool) -> Seq<bool> {
    Seq::new(
        6,
        |k: int| solid(neighbour(x, y, z, k).0, neighbour(x, y, z, k).1, neighbour(x, y, z, k).2),
    )
}

/// `m` with the voxels `(x, y, 0..nz)` that `blocks` does not leave empty.
pub open spec fn with_row(
    m: MeshView,
    blocks: spec_fn(i32, i32, i32) -> BlockType,
    solid: spec_fn(i32, i32, i32) -> bool,
    x: i32,
    y: i32,
    nz: int,
) -> MeshView
    decreases nz,
{
    if nz <= 0 {
        m
    } else {
        let m1 = with_row(m, blocks, solid, x, y, nz - 1);
        let z = (nz - 1) as i32;
        if blocks(x, y, z) != BlockType::Air {
            with_voxel(m1, x, y, z, blocks(x, y, z), solid)
        } else {
            m1
        }
    }
}

/// `m` with the rows `(x, 0..ny, 0..n)`.
pub open spec fn with_plane(
    m: MeshView,
    blocks: spec_fn(i32, i32, i32) -> BlockType,
    solid: spec_fn(i32, i32, i32) -> bool,
    x: i32,
    ny: int,
    n: int,
) -> MeshView
    decreases ny,
{
    if ny <= 0 {
        m
    } else {
        with_row(with_plane(m, blocks, solid, x, ny - 1, n), blocks, solid, x, (ny - 1) as i32, n)
    }
}

/// `m` with the voxels of the cube `0..nx` by `0..n` by `0..n`, x outermost
/// and z innermost.
pub open spec fn with_cube(
    m: MeshView,
    blocks: spec_fn(i32, i32, i32) -> BlockType,
    solid: spec_fn(i32, i32, i32) -> bool,
    nx: int,
    n: int,
) -> MeshView
    decreases nx,
{
    if nx <= 0 {
        m
    } else {
        with_plane(with_cube(m, blocks, solid, nx - 1, n), blocks, solid, (nx - 1) as i32, n, n)
    }
}

/// The blocks of a chunk, by local position.
pub open spec fn chunk_blocks(chunk: Chunk) -> spec_fn(i32, i32, i32) -> BlockType {
    |x: i32, y: i32, z: i32| chunk.octree.block(IVec3 { x, y, z })
}

/// The local positions of a chunk that hold a block other than air; every
/// position outside the chunk counts as empty.
pub open spec fn chunk_solid(chunk: Chunk) -> spec_fn(i32, i32, i32) -> bool {
    |x: i32, y: i32, z: i32|
        {
            &&& 0 <= x < CHUNK_SIZE && 0 <= y < CHUNK_SIZE && 0 <= z < CHUNK_SIZE
            &&& in_cube(chunk.octree.side(), IVec3 { x, y, z })
            &&& chunk.octree.block(IVec3 { x, y, z }) != BlockType::Air
        }
}

/// The voxels of the demonstration terrain: a floor four voxels thick and
/// a pillar ten voxels high at `(8, 8)`, in a cube of 16, on solid ground.
pub open spec fn demo_solid() -> spec_fn(i32, i32, i32) -> bool {
    |x: i32, y: i32, z: i32|
        if y < 0 {
            true
        } else if x < 0 || x >= 16 || y >= 16 || z < 0 || z >= 16 {
            false
        } else {
            y < 4 || (x == 8 && z == 8 && y < 10)
        }
}

/// Stone wherever the demonstration terrain is solid.
pub open spec fn demo_blocks() -> spec_fn(i32, i32, i32) -> BlockType {
    |x: i32, y: i32, z: i32|
        if demo_solid()(x, y, z) {
            BlockType::Stone
        } else {
            BlockType::Air
        }
}

/// Whether `c` is a corner of the cube of voxel `(x, y, z)` in half voxels:
/// each coordinate one half voxel below or above the voxel's centre.
pub open spec fn cube_corner(c: (i64, i64, i64), x: int, y: int, z: int) -> bool {
    &&& (c.0 == 2 * x - 1 || c.0 == 2 * x + 1)
    &&& (c.1 == 2 * y - 1 || c.1 == 2 * y + 1)
    &&& (c.2 == 2 * z - 1 || c.2 == 2 * z + 1)
}

/// Whether `(x2, y2, z2)` is one of the six voxels next to `(x, y, z)`: one
/// step along one axis.
pub open spec fn adjacent(x: int, y: int, z: int, x2: int, y2: int, z2: int) -> bool {
    ||| (x2 == x + 1 || x2 == x - 1) && y2 == y && z2 == z
    ||| x2 == x && (y2 == y + 1 || y2 == y - 1) && z2 == z
    ||| x2 == x && y2 == y && (z2 == z + 1 || z2 == z - 1)
}

/// Law: face `k` of the voxel `(x, y, z)` holding `block`, as the mesher
/// draws it, is the square the voxel shares with the neighbour whose
/// solidity hides it (`neighbour`, one step along one axis): its four
/// vertices are four different corners of the voxel's cube that are corners
/// of the neighbour's cube too; all four carry the normal that points from
/// the voxel to that neighbour; and its texture is the block's top tile
/// when that normal points up (+y), its bottom tile when it points down,
/// and its side tile otherwise.
pub proof fn law_face_geometry(m: MeshView, x: i32, y: i32, z: i32, block: BlockType, k: int)
    requires
        0 <= k < 6,
        block != BlockType::Air,
        i32::MIN < x < i32::MAX,
        i32::MIN < y < i32::MAX,
        i32::MIN < z < i32::MAX,
    ensures
        ({
            let s = m.positions.len();
            let out = face_step(m, x, y, z, block, false, k);
            let nb = neighbour(x, y, z, k);
            let n = out.normals[m.normals.len() as int];
            let kind = if n.1 == 1 {
                BlockFace::Top
            } else if n.1 == -1 {
                BlockFace::Bottom
            } else {
                BlockFace::Side
            };
            let tile = tile_of(block, kind).unwrap();
            &&& adjacent(x as int, y as int, z as int, nb.0 as int, nb.1 as int, nb.2 as int)
            &&& out.positions.len() == s + 4
            &&& out.positions.subrange(0, s as int) == m.positions
            &&& forall|i: int|
                s <= i < s + 4 ==> cube_corner(#[trigger] out.positions[i], x as int, y as int, z as int)
                    && cube_corner(out.positions[i], nb.0 as int, nb.1 as int, nb.2 as int)
            &&& forall|i: int, j: int| s <= i < j < s + 4 ==> #[trigger] out.positions[i] != #[trigger] out.positions[j]
            &&& out.normals.len() == m.normals.len() + 4
            &&& forall|i: int|
                m.normals.len() <= i < m.normals.len() + 4 ==> #[trigger] out.normals[i] == n
            &&& n.0 == nb.0 - x && n.1 == nb.1 - y && n.2 == nb.2 - z
            &&& out.uvs == m.uvs + seq![
                (tile.0, tile.1),
                ((tile.0 + 1) as u32, tile.1),
                (tile.0, (tile.1 + 1) as u32),
                ((tile.0 + 1) as u32, (tile.1 + 1) as u32),
            ]
        }),
{
    if k == 0 {
    } else if k == 1 {
    } else if k == 2 {
    } else if k == 3 {
    } else if k == 4 {
    } else {
    }
}

/// The cross product of `b - a` and `c - a`.
pub open spec fn turn(a: (i64, i64, i64), b: (i64, i64, i64), c: (i64, i64, i64)) -> (int, int, int) {
    let u = (b.0 - a.0, b.1 - a.1, b.2 - a.2);
    let v = (c.0 - a.0, c.1 - a.1, c.2 - a.2);
    (u.1 * v.2 - u.2 * v.1, u.2 * v.0 - u.0 * v.2, u.0 * v.1 - u.1 * v.0)
}

proof fn lemma_turn(
    a: (i64, i64, i64),
    b: (i64, i64, i64),
    c: (i64, i64, i64),
    u0: int,
    u1: int,
    u2: int,
    v0: int,
    v1: int,
    v2: int,
)
    by (nonlinear_arith)
    requires
        b.0 - a.0 == u0 && b.1 - a.1 == u1 && b.2 - a.2 == u2,
        c.0 - a.0 == v0 && c.1 - a.1 == v1 && c.2 - a.2 == v2,
    ensures
        turn(a, b, c) == (u1 * v2 - u2 * v1, u2 * v0 - u0 * v2, u0 * v1 - u1 * v0),
{
}

/// Law: a drawn face is two triangles over its four new vertices, between
/// them using all four, each turning counter-clockwise when seen from the
/// side its normal points to (the front face of a triangle list): the
/// cross product of its edges is four times the normal, the area of a
/// half-face in half voxels.
pub proof fn law_face_winding(m: MeshView, x: i32, y: i32, z: i32, block: BlockType, k: int)
    requires
        0 <= k < 6,
        block != BlockType::Air,
        m.positions.len() + 4 <= u32::MAX,
    ensures
        ({
            let s = m.positions.len() as int;
            let t = m.indices.len() as int;
            let out = face_step(m, x, y, z, block, false, k);
            let n = face_step(m, x, y, z, block, false, k).normals[m.normals.len() as int];

            &&& out.indices.len() == t + 6
            &&& forall|j: int| 0 <= j < 6 ==> s <= #[trigger] out.indices[t + j] < s + 4
            &&& forall|i: int| s <= i < s + 4 ==> #[trigger] out.indices.subrange(t, t + 6).contains(i as u32)
            &&& turn(
                out.positions[out.indices[t] as int],
                out.positions[out.indices[t + 1] as int],
                out.positions[out.indices[t + 2] as int],
            ) == (4 * n.0, 4 * n.1, 4 * n.2)
            &&& turn(
                out.positions[out.indices[t + 3] as int],
                out.positions[out.indices[t + 4] as int],
                out.positions[out.indices[t + 5] as int],
            ) == (4 * n.0, 4 * n.1, 4 * n.2)
        }),
{
    let s = m.positions.len() as int;
    let t = m.indices.len() as int;
    let out = face_step(m, x, y, z, block, false, k);
    assert(out.indices[t] == s && out.indices[t + 1] == s + 2 && out.indices[t + 2] == s + 3);
    assert(out.indices[t + 3] == s && out.indices[t + 4] == s + 3 && out.indices[t + 5] == s + 1);
    let six = out.indices.subrange(t, t + 6);
    assert forall|i: int| s <= i < s + 4 implies #[trigger] out.indices.subrange(t, t + 6).contains(i as u32) by {
        if i == s {
            assert(six[0] == i as u32);
        } else if i == s + 1 {
            assert(six[5] == i as u32);
        } else if i == s + 2 {
            assert(six[1] == i as u32);
        } else {
            assert(six[2] == i as u32);
        }
    }
    let p0 = out.positions[s];
    let p1 = out.positions[s + 1];
    let p2 = out.positions[s + 2];
    let p3 = out.positions[s + 3];
    assert(out.positions[out.indices[t] as int] == p0);
    assert(out.positions[out.indices[t + 1] as int] == p2);
    assert(out.positions[out.indices[t + 2] as int] == p3);
    assert(out.positions[out.indices[t + 3] as int] == p0);
    assert(out.positions[out.indices[t + 4] as int] == p3);
    assert(out.positions[out.indices[t + 5] as int] == p1);
    let d1 = (p1.0 - p0.0, p1.1 - p0.1, p1.2 - p0.2);
    let d2 = (p2.0 - p0.0, p2.1 - p0.1, p2.2 - p0.2);
    let d3 = (p3.0 - p0.0, p3.1 - p0.1, p3.2 - p0.2);
    if k == 0 {
        assert(d1 == (2int, 0int, 0int) && d2 == (0int, 0int, 2int) && d3 == (2int, 0int, 2int));
        lemma_turn(p0, p2, p3, 0, 0, 2, 2, 0, 2);
        lemma_turn(p0, p3, p1, 2, 0, 2, 2, 0, 0);
        assert(turn(p0, p2, p3) == (0int, 4int, 0int) && turn(p0, p3, p1) == (0int, 4int, 0int));
    } else if k == 1 {
        assert(d1 == (2int, 0int, 0int) && d2 == (0int, 0int, -2int) && d3 == (2int, 0int, -2int));
        lemma_turn(p0, p2, p3, 0, 0, -2, 2, 0, -2);
        lemma_turn(p0, p3, p1, 2, 0, -2, 2, 0, 0);
        assert(turn(p0, p2, p3) == (0int, -4int, 0int) && turn(p0, p3, p1) == (0int, -4int, 0int));
    } else if k == 2 {
        assert(d1 == (0int, 0int, -2int) && d2 == (0int, -2int, 0int) && d3 == (0int, -2int, -2int));
        lemma_turn(p0, p2, p3, 0, -2, 0, 0, -2, -2);
        lemma_turn(p0, p3, p1, 0, -2, -2, 0, 0, -2);
        assert(turn(p0, p2, p3) == (4int, 0int, 0int) && turn(p0, p3, p1) == (4int, 0int, 0int));
    } else if k == 3 {
        assert(d1 == (0int, 0int, 2int) && d2 == (0int, -2int, 0int) && d3 == (0int, -2int, 2int));
        lemma_turn(p0, p2, p3, 0, -2, 0, 0, -2, 2);
        lemma_turn(p0, p3, p1, 0, -2, 2, 0, 0, 2);
        assert(turn(p0, p2, p3) == (-4int, 0int, 0int) && turn(p0, p3, p1) == (-4int, 0int, 0int));
    } else if k == 4 {
        assert(d1 == (2int, 0int, 0int) && d2 == (0int, -2int, 0int) && d3 == (2int, -2int, 0int));
        lemma_turn(p0, p2, p3, 0, -2, 0, 2, -2, 0);
        lemma_turn(p0, p3, p1, 2, -2, 0, 2, 0, 0);
        assert(turn(p0, p2, p3) == (0int, 0int, 4int) && turn(p0, p3, p1) == (0int, 0int, 4int));
    } else {
        assert(d1 == (-2int, 0int, 0int) && d2 == (0int, -2int, 0int) && d3 == (-2int, -2int, 0int));
        lemma_turn(p0, p2, p3, 0, -2, 0, -2, -2, 0);
        lemma_turn(p0, p3, p1, -2, -2, 0, -2, 0, 0);
        assert(turn(p0, p2, p3) == (0int, 0int, -4int) && turn(p0, p3, p1) == (0int, 0int, -4int));
    }
}

/// Law: face `k` of the voxel `(x, y, z)` is hidden exactly when the voxel
/// its drawn normal points to is solid.
pub proof fn law_hidden_faces(x: i32, y: i32, z: i32, solid: spec_fn(i32, i32, i32) -> bool, k: int)
    requires
        0 <= k < 6,
        i32::MIN < x < i32::MAX,
        i32::MIN < y < i32::MAX,
        i32::MIN < z < i32::MAX,
    ensures
        ({
            let n = face_step(empty_mesh(), x, y, z, BlockType::Stone, false, k).normals[0];
            hidden_faces(x, y, z, solid)[k] == solid((x + n.0) as i32, (y + n.1) as i32, (z + n.2) as i32)
        }),
{
    if k == 0 {
    } else if k == 1 {
    } else if k == 2 {
    } else if k == 3 {
    } else if k == 4 {
    } else {
    }
}

/// Law: a voxel none of whose six neighbours is solid shows six faces (24
/// vertices, one normal for each of the six directions); one all of whose
/// neighbours are solid shows none.
pub proof fn law_voxel_face_count(
    m: MeshView,
    x: i32,
    y: i32,
    z: i32,
    block: BlockType,
    solid: spec_fn(i32, i32, i32) -> bool,
)
    requires
        block != BlockType::Air,
        i32::MIN < x < i32::MAX,
        i32::MIN < y < i32::MAX,
        i32::MIN < z < i32::MAX,
    ensures
        !solid(x, (y + 1) as i32, z) && !solid(x, (y - 1) as i32, z) && !solid((x + 1) as i32, y, z) && !solid(
            (x - 1) as i32,
            y,
            z,
        ) && !solid(x, y, (z + 1) as i32) && !solid(x, y, (z - 1) as i32) ==> ({
            let out = with_voxel(m, x, y, z, block, solid);
            let s = m.normals.len() as int;
            &&& out.positions.len() == m.positions.len() + 24
            &&& out.normals.len() == s + 24
            &&& out.normals[s] == (0i32, 1i32, 0i32) && out.normals[s + 4] == (0i32, -1i32, 0i32)
            &&& out.normals[s + 8] == (1i32, 0i32, 0i32) && out.normals[s + 12] == (-1i32, 0i32, 0i32)
            &&& out.normals[s + 16] == (0i32, 0i32, 1i32) && out.normals[s + 20] == (0i32, 0i32, -1i32)
        }),
        solid(x, (y + 1) as i32, z) && solid(x, (y - 1) as i32, z) && solid((x + 1) as i32, y, z) && solid(
            (x - 1) as i32,
            y,
            z,
        ) && solid(x, y, (z + 1) as i32) && solid(x, y, (z - 1) as i32) ==> with_voxel(m, x, y, z, block, solid) == m,
{
    let h = hidden_faces(x, y, z, solid);
    reveal_with_fuel(with_faces, 7);
    assert(h[0] == solid(x, (y + 1) as i32, z));
    assert(h[1] == solid(x, (y - 1) as i32, z));
    assert(h[2] == solid((x + 1) as i32, y, z));
    assert(h[3] == solid((x - 1) as i32, y, z));
    assert(h[4] == solid(x, y, (z + 1) as i32));
    assert(h[5] == solid(x, y, (z - 1) as i32));
}

/// The four texture corners of atlas tile `(col, row)`.
pub fn add_quad_uvs(col: u32, row: u32) -> (r: [(u32, u32); 4])
    requires
        col < u32::MAX,
        row < u32::MAX,
    ensures
        r@ == tile_corners(col, row),
{
    let r = [(col, row), (col + 1, row), (col, row + 1), (col + 1, row + 1)];
    assert(r@ =~= tile_corners(col, row));
    r
}

/// Appends the four vertices and six indices of a quad.
pub fn add_quad(
    mesh: &mut MeshData,
    offset: (i64, i64, i64),
    normal: (i32, i32, i32),
    tl: (i64, i64, i64),
    tr: (i64, i64, i64),
    bl: (i64, i64, i64),
    br: (i64, i64, i64),
    face_uvs: [(u32, u32); 4],
)
    requires
        old(mesh).positions.len() + 3 <= u32::MAX,
        fits_i64(offset, tl),
        fits_i64(offset, tr),
        fits_i64(offset, bl),
        fits_i64(offset, br),
    ensures
        final(mesh)@ == with_quad(old(mesh)@, offset, normal, seq![tl, tr, bl, br], face_uvs@),
        mesh_wf(old(mesh)@) ==> mesh_wf(final(mesh)@),
{
    let start_index = mesh.positions.len() as u32;
    mesh.positions.push((offset.0 + tl.0, offset.1 + tl.1, offset.2 + tl.2));
    mesh.positions.push((offset.0 + tr.0, offset.1 + tr.1, offset.2 + tr.2));
    mesh.positions.push((offset.0 + bl.0, offset.1 + bl.1, offset.2 + bl.2));
    mesh.positions.push((offset.0 + br.0, offset.1 + br.1, offset.2 + br.2));
    mesh.normals.push(normal);
    mesh.normals.push(normal);
    mesh.normals.push(normal);
    mesh.normals.push(normal);
    mesh.uvs.push(face_uvs[0]);
    mesh.uvs.push(face_uvs[1]);
    mesh.uvs.push(face_uvs[2]);
    mesh.uvs.push(face_uvs[3]);
    mesh.indices.push(start_index + 0);
    mesh.indices.push(start_index + 2);
    mesh.indices.push(start_index + 3);
    mesh.indices.push(start_index + 0);
    mesh.indices.push(start_index + 3);
    mesh.indices.push(start_index + 1);
    proof {
        let w = with_quad(old(mesh)@, offset, normal, seq![tl, tr, bl, br], face_uvs@);
        assert(mesh.positions@ =~= w.positions);
        assert(mesh.normals@ =~= w.normals);
        assert(mesh.uvs@ =~= w.uvs);
        assert(mesh.indices@ =~= w.indices);
        if mesh_wf(old(mesh)@) {
            assert forall|i: int| 0 <= i < mesh.indices@.len() implies #[trigger] mesh.indices@[i]
                < mesh.positions@.len() by {
                if i < old(mesh).indices@.len() {
                    assert(mesh.indices@[i] == old(mesh).indices@[i]);
                }
            }
        }
    }
}

fn add_face(
    mesh: &mut MeshData,
    x: i32,
    y: i32,
    z: i32,
    block: BlockType,
    f: usize,
    face_uvs: [(u32, u32); 4],
)
    requires
        block != BlockType::Air,
        f < 6,
        face_uvs@ == tile_corners(tile_of(block, face_kind(f as int)).unwrap().0, tile_of(block, face_kind(f as int)).unwrap().1),
        old(mesh).positions.len() + 3 <= u32::MAX,
    ensures
        final(mesh)@ == face_step(old(mesh)@, x, y, z, block, false, f as int),
        final(mesh).positions.len() == old(mesh).positions.len() + 4,
        mesh_wf(old(mesh)@) ==> mesh_wf(final(mesh)@),
{
    let offset: (i64, i64, i64) = ((x as i64) * 2, (y as i64) * 2, (z as i64) * 2);
    if f == 0 {
        add_quad(mesh, offset, (0, 1, 0), (-1, 1, -1), (1, 1, -1), (-1, 1, 1), (1, 1, 1), face_uvs);
    } else if f == 1 {
        add_quad(mesh, offset, (0, -1, 0), (-1, -1, 1), (1, -1, 1), (-1, -1, -1), (1, -1, -1), face_uvs);
    } else if f == 2 {
        add_quad(mesh, offset, (1, 0, 0), (1, 1, 1), (1, 1, -1), (1, -1, 1), (1, -1, -1), face_uvs);
    } else if f == 3 {
        add_quad(mesh, offset, (-1, 0, 0), (-1, 1, -1), (-1, 1, 1), (-1, -1, -1), (-1, -1, 1), face_uvs);
    } else if f == 4 {
        add_quad(mesh, offset, (0, 0, 1), (-1, 1, 1), (1, 1, 1), (-1, -1, 1), (1, -1, 1), face_uvs);
    } else {
        add_quad(mesh, offset, (0, 0, -1), (1, 1, -1), (-1, 1, -1), (1, -1, -1), (-1, -1, -1), face_uvs);
    }
    proof {
        assert(seq![(-1i64, 1i64, -1i64), (1i64, 1i64, -1i64), (-1i64, 1i64, 1i64), (1i64, 1i64, 1i64)] =~= face_corners(0));
        assert(seq![(-1i64, -1i64, 1i64), (1i64, -1i64, 1i64), (-1i64, -1i64, -1i64), (1i64, -1i64, -1i64)] =~= face_corners(1));
        assert(seq![(1i64, 1i64, 1i64), (1i64, 1i64, -1i64), (1i64, -1i64, 1i64), (1i64, -1i64, -1i64)] =~= face_corners(2));
        assert(seq![(-1i64, 1i64, -1i64), (-1i64, 1i64, 1i64), (-1i64, -1i64, -1i64), (-1i64, -1i64, 1i64)] =~= face_corners(3));
        assert(seq![(-1i64, 1i64, 1i64), (1i64, 1i64, 1i64), (-1i64, -1i64, 1i64), (1i64, -1i64, 1i64)] =~= face_corners(4));
        assert(seq![(1i64, 1i64, -1i64), (-1i64, 1i64, -1i64), (1i64, -1i64, -1i64), (-1i64, -1i64, -1i64)] =~= face_corners(5));
    }
}

/// Appends the faces of the voxel at `(x, y, z)`, which holds `block`, that
/// `is_solid` does not hide: a face is drawn unless the neighbour it looks
/// towards is solid.
pub fn add_voxel<F: Fn(i32, i32, i32) -> bool>(
    mesh: &mut MeshData,
    x: i32,
    y: i32,
    z: i32,
    block: BlockType,
    is_solid: &F,
)
    requires
        block != BlockType::Air,
        i32::MIN < x < i32::MAX,
        i32::MIN < y < i32::MAX,
        i32::MIN < z < i32::MAX,
        old(mesh).positions.len() + 24 <= u32::MAX,
        forall|a: i32, b: i32, c: i32| #[trigger] is_solid.requires((a, b, c)),
    ensures
        exists|h: Seq<bool>|
            {
                &&& h.len() == 6
                &&& forall|k: int|
                    0 <= k < 6 ==> is_solid.ensures(
                        (neighbour(x, y, z, k).0, neighbour(x, y, z, k).1, neighbour(x, y, z, k).2),
                        #[trigger] h[k],
                    )
                &&& final(mesh)@ == with_faces(old(mesh)@, x, y, z, block, h, 6)
            },
        final(mesh).positions.len() <= old(mesh).positions.len() + 24,
        mesh_wf(old(mesh)@) ==> mesh_wf(final(mesh)@),
{
    let top_tile = block.atlas_tile(BlockFace::Top).unwrap();
    let bottom_tile = block.atlas_tile(BlockFace::Bottom).unwrap();
    let side_tile = block.atlas_tile(BlockFace::Side).unwrap();
    let top_uvs = add_quad_uvs(top_tile.0, top_tile.1);
    let bottom_uvs = add_quad_uvs(bottom_tile.0, bottom_tile.1);
    let side_uvs = add_quad_uvs(side_tile.0, side_tile.1);
    let ghost m0 = mesh@;

    // Top (+Y)
    let h0 = is_solid(x, y + 1, z);
    if !h0 {
        add_face(mesh, x, y, z, block, 0, top_uvs);
    }
    let ghost m1 = mesh@;
    // Bottom (-Y)
    let h1 = is_solid(x, y - 1, z);
    if !h1 {
        add_face(mesh, x, y, z, block, 1, bottom_uvs);
    }
    let ghost m2 = mesh@;
    // Right (+X)
    let h2 = is_solid(x + 1, y, z);
    if !h2 {
        add_face(mesh, x, y, z, block, 2, side_uvs);
    }
    let ghost m3 = mesh@;
    // Left (-X)
    let h3 = is_solid(x - 1, y, z);
    if !h3 {
        add_face(mesh, x, y, z, block, 3, side_uvs);
    }
    let ghost m4 = mesh@;
    // Front (+Z)
    let h4 = is_solid(x, y, z + 1);
    if !h4 {
        add_face(mesh, x, y, z, block, 4, side_uvs);
    }
    let ghost m5 = mesh@;
    // Back (-Z)
    let h5 = is_solid(x, y, z - 1);
    if !h5 {
        add_face(mesh, x, y, z, block, 5, side_uvs);
    }
    proof {
        let h = seq![h0, h1, h2, h3, h4, h5];
        assert(m1 == face_step(m0, x, y, z, block, h[0], 0));
        assert(m2 == face_step(m1, x, y, z, block, h[1], 1));
        assert(m3 == face_step(m2, x, y, z, block, h[2], 2));
        assert(m4 == face_step(m3, x, y, z, block, h[3], 3));
        assert(m5 == face_step(m4, x, y, z, block, h[4], 4));
        assert(mesh@ == face_step(m5, x, y, z, block, h[5], 5));
        assert(with_faces(m0, x, y, z, block, h, 0) == m0);
        assert(with_faces(m0, x, y, z, block, h, 1) == m1);
        assert(with_faces(m0, x, y, z, block, h, 2) == m2);
        assert(with_faces(m0, x, y, z, block, h, 3) == m3);
        assert(with_faces(m0, x, y, z, block, h, 4) == m4);
        assert(with_faces(m0, x, y, z, block, h, 5) == m5);
        assert(with_faces(m0, x, y, z, block, h, 6) == mesh@);
        assert forall|k: int|
            0 <= k < 6 implies is_solid.ensures(
            (neighbour(x, y, z, k).0, neighbour(x, y, z, k).1, neighbour(x, y, z, k).2),
            #[trigger] h[k],
        ) by {
            if k == 0 {
            } else if k == 1 {
            } else if k == 2 {
            } else if k == 3 {
            } else if k == 4 {
            } else {
            }
        }
        assert(m0 == old(mesh)@);
        assert(h.len() == 6);
        assert(final(mesh)@ == mesh@);
    }
}

/// The mesh of the visible faces of the solid voxels of a chunk, voxel by
/// voxel (x outermost, z innermost); faces towards a solid neighbour in the
/// chunk are left out, faces at the chunk's border are kept. A chunk whose
/// octree does not cover all `CHUNK_SIZE` cubed local positions is refused
/// with `OutOfBounds`.
pub fn mesh_from_chunk(chunk: &Chunk) -> (r: Result<MeshData, OctreeError>)
    ensures
        in_cube(chunk.octree.side(), (IVec3 { x: 31, y: 31, z: 31 })) ==> (r matches Ok(m) && m@ == with_cube(
            empty_mesh(),
            chunk_blocks(*chunk),
            chunk_solid(*chunk),
            32,
            32,
        ) && mesh_wf(m@)),
        !in_cube(chunk.octree.side(), (IVec3 { x: 31, y: 31, z: 31 })) ==> (r matches Err(e) && e
            == OctreeError::OutOfBounds),
{
    let mut mesh = MeshData { positions: Vec::new(), normals: Vec::new(), uvs: Vec::new(), indices: Vec::new() };
    proof {
        assert(mesh_wf(mesh@));
    }
    let chunk_size: i32 = 32;
    let is_solid = |x: i32, y: i32, z: i32| -> (r: bool)
        ensures
            r == chunk_solid(*chunk)(x, y, z),
        {
            if x < 0 || x >= chunk_size || y < 0 || y >= chunk_size || z < 0 || z >= chunk_size {
                false
            } else {
                let coords = IVec3 { x, y, z };
                match chunk.get_local(coords) {
                    Ok(block) => block.is_solid(),
                    Err(_) => false,
                }
            }
        };
    let ghost blocks = chunk_blocks(*chunk);
    let ghost solid = chunk_solid(*chunk);
    let mut x: i32 = 0;
    while x < chunk_size
        invariant
            0 <= x <= 32,
            chunk_size == 32,
            blocks == chunk_blocks(*chunk),
            solid == chunk_solid(*chunk),
            forall|a: i32, b: i32, c: i32, v: bool| #[trigger] is_solid.ensures((a, b, c), v) ==> v == solid(a, b, c),
            forall|a: i32, b: i32, c: i32| #[trigger] is_solid.requires((a, b, c)),
            mesh@ == with_cube(empty_mesh(), blocks, solid, x as int, 32),
            mesh.positions.len() <= 24 * (1024 * x),
            mesh_wf(mesh@),
            x > 0 ==> in_cube(chunk.octree.side(), IVec3 { x: (x - 1) as i32, y: 31, z: 31 }),
        decreases 32 - x,
    {
        let mut y: i32 = 0;
        while y < chunk_size
            invariant
                0 <= x < 32,
                0 <= y <= 32,
                chunk_size == 32,
                blocks == chunk_blocks(*chunk),
                solid == chunk_solid(*chunk),
                forall|a: i32, b: i32, c: i32, v: bool| #[trigger] is_solid.ensures((a, b, c), v) ==> v == solid(a, b, c),
                forall|a: i32, b: i32, c: i32| #[trigger] is_solid.requires((a, b, c)),
                mesh@ == with_plane(with_cube(empty_mesh(), blocks, solid, x as int, 32), blocks, solid, x, y as int, 32),
                mesh.positions.len() <= 24 * (1024 * x + 32 * y),
                mesh_wf(mesh@),
                y > 0 ==> in_cube(chunk.octree.side(), IVec3 { x: x, y: (y - 1) as i32, z: 31 }),
            decreases 32 - y,
        {
            let mut z: i32 = 0;
            while z < chunk_size
                invariant
                    0 <= x < 32,
                    0 <= y < 32,
                    0 <= z <= 32,
                    chunk_size == 32,
                    blocks == chunk_blocks(*chunk),
                    solid == chunk_solid(*chunk),
                    forall|a: i32, b: i32, c: i32, v: bool| #[trigger] is_solid.ensures((a, b, c), v) ==> v == solid(a, b, c),
                    forall|a: i32, b: i32, c: i32| #[trigger] is_solid.requires((a, b, c)),
                    mesh@ == with_row(
                        with_plane(with_cube(empty_mesh(), blocks, solid, x as int, 32), blocks, solid, x, y as int, 32),
                        blocks,
                        solid,
                        x,
                        y,
                        z as int,
                    ),
                    mesh.positions.len() <= 24 * (1024 * x + 32 * y + z),
                    mesh_wf(mesh@),
                    z > 0 ==> in_cube(chunk.octree.side(), IVec3 { x: x, y: y, z: (z - 1) as i32 }),
                decreases 32 - z,
            {
                let pos = IVec3 { x, y, z };
                let block = match chunk.get_local(pos) {
                    Ok(b) => b,
                    Err(e) => {
                        return Err(e);
                    },
                };
                let ghost before = mesh@;
                if block.is_solid() {
                    add_voxel(&mut mesh, x, y, z, block, &is_solid);
                    proof {
                        let h = choose|h: Seq<bool>|
                            {
                                &&& h.len() == 6
                                &&& forall|k: int|
                                    0 <= k < 6 ==> is_solid.ensures(
                                        (neighbour(x, y, z, k).0, neighbour(x, y, z, k).1, neighbour(x, y, z, k).2),
                                        #[trigger] h[k],
                                    )
                                &&& mesh@ == with_faces(before, x, y, z, block, h, 6)
                            };
                        assert(h =~= hidden_faces(x, y, z, solid)) by {
                            assert forall|k: int| 0 <= k < 6 implies h[k] == #[trigger] hidden_faces(x, y, z, solid)[k] by {
                                assert(is_solid.ensures(
                                    (neighbour(x, y, z, k).0, neighbour(x, y, z, k).1, neighbour(x, y, z, k).2),
                                    h[k],
                                ));
                            }
                        }
                        assert(blocks(x, y, z) == block);
                    }
                } else {
                    proof {
                        assert(blocks(x, y, z) == block);
                    }
                }
                z += 1;
            }
            y += 1;
        }
        x += 1;
    }
    Ok(mesh)
}

/// The mesh of the demonstration terrain (`demo_solid`), all stone, in a
/// cube of 16 voxels a side.
pub fn simulate_chunk_mesh() -> (r: MeshData)
    ensures
        r@ == with_cube(empty_mesh(), demo_blocks(), demo_solid(), 16, 16),
        mesh_wf(r@),
{
    let mut mesh = MeshData { positions: Vec::new(), normals: Vec::new(), uvs: Vec::new(), indices: Vec::new() };
    proof {
        assert(mesh_wf(mesh@));
    }
    let chunk_size: i32 = 16;
    let is_solid = |x: i32, y: i32, z: i32| -> (r: bool)
        ensures
            r == demo_solid()(x, y, z),
        {
            if y < 0 {
                true
            } else if x < 0 || x >= chunk_size || y >= chunk_size || z < 0 || z >= chunk_size {
                false
            } else {
                y < 4 || (x == 8 && z == 8 && y < 10)
            }
        };
    let ghost blocks = demo_blocks();
    let ghost solid = demo_solid();
    let mut x: i32 = 0;
    while x < chunk_size
        invariant
            0 <= x <= 16,
            chunk_size == 16,
            blocks == demo_blocks(),
            solid == demo_solid(),
            forall|a: i32, b: i32, c: i32, v: bool| #[trigger] is_solid.ensures((a, b, c), v) ==> v == solid(a, b, c),
            forall|a: i32, b: i32, c: i32| #[trigger] is_solid.requires((a, b, c)),
            mesh@ == with_cube(empty_mesh(), blocks, solid, x as int, 16),
            mesh.positions.len() <= 24 * (256 * x),
            mesh_wf(mesh@),
        decreases 16 - x,
    {
        let mut y: i32 = 0;
        while y < chunk_size
            invariant
                0 <= x < 16,
                0 <= y <= 16,
                chunk_size == 16,
                blocks == demo_blocks(),
                solid == demo_solid(),
                forall|a: i32, b: i32, c: i32, v: bool| #[trigger] is_solid.ensures((a, b, c), v) ==> v == solid(a, b, c),
                forall|a: i32, b: i32, c: i32| #[trigger] is_solid.requires((a, b, c)),
                mesh@ == with_plane(with_cube(empty_mesh(), blocks, solid, x as int, 16), blocks, solid, x, y as int, 16),
                mesh.positions.len() <= 24 * (256 * x + 16 * y),
                mesh_wf(mesh@),
            decreases 16 - y,
        {
            let mut z: i32 = 0;
            while z < chunk_size
                invariant
                    0 <= x < 16,
                    0 <= y < 16,
                    0 <= z <= 16,
                    chunk_size == 16,
                    blocks == demo_blocks(),
                    solid == demo_solid(),
                    forall|a: i32, b: i32, c: i32, v: bool| #[trigger] is_solid.ensures((a, b, c), v) ==> v == solid(a, b, c),
                    forall|a: i32, b: i32, c: i32| #[trigger] is_solid.requires((a, b, c)),
                    mesh@ == with_row(
                        with_plane(with_cube(empty_mesh(), blocks, solid, x as int, 16), blocks, solid, x, y as int, 16),
                        blocks,
                        solid,
                        x,
                        y,
                        z as int,
                    ),
                    mesh.positions.len() <= 24 * (256 * x + 16 * y + z),
                    mesh_wf(mesh@),
                decreases 16 - z,
            {
                let ghost before = mesh@;
                if is_solid(x, y, z) {
                    add_voxel(&mut mesh, x, y, z, BlockType::Stone, &is_solid);
                    proof {
                        let h = choose|h: Seq<bool>|
                            {
                                &&& h.len() == 6
                                &&& forall|k: int|
                                    0 <= k < 6 ==> is_solid.ensures(
                                        (neighbour(x, y, z, k).0, neighbour(x, y, z, k).1, neighbour(x, y, z, k).2),
                                        #[trigger] h[k],
                                    )
                                &&& mesh@ == with_faces(before, x, y, z, BlockType::Stone, h, 6)
                            };
                        assert(h =~= hidden_faces(x, y, z, solid)) by {
                            assert forall|k: int| 0 <= k < 6 implies h[k] == #[trigger] hidden_faces(x, y, z, solid)[k] by {
                                assert(is_solid.ensures(
                                    (neighbour(x, y, z, k).0, neighbour(x, y, z, k).1, neighbour(x, y, z, k).2),
                                    h[k],
                                ));
                            }
                        }
                        assert(blocks(x, y, z) == BlockType::Stone);
                    }
                } else {
                    proof {
                        assert(blocks(x, y, z) == BlockType::Air);
                    }
                }
                z += 1;
            }
            y += 1;
        }
        x += 1;
    }
    mesh
}

} // verus!
