//! Terrain: filling a chunk from a height map.

use vstd::prelude::*;

use crate::world::chunk::{Chunk, CHUNK_SIZE};
use crate::world::octree::{in_cube, is_pow2};
use crate::world::position::IVec3;
use crate::world::voxel::BlockType;

verus! {

/// The block at height `y` of a column whose surface is at height `h`:
/// grass on top, three layers of dirt below, stone further down, air above.
/// A height beyond `i32::MAX` stands for an empty column.
pub open spec fn column_block(h: u32, y: int) -> BlockType {
    if h > i32::MAX || y > h {
        BlockType::Air
    } else if y == h {
        BlockType::Grass
    } else if y >= h - 3 {
        BlockType::Dirt
    } else {
        BlockType::Stone
    }
}

/// Law: a column whose surface is at height `h` holds, from the ground
/// (`y = 0`) up: stone only more than three blocks below the surface, dirt
/// in exactly the (at most three) blocks just below it, grass at the surface
/// alone, and air only above it.
pub proof fn law_column_layers(h: u32, y: int)
    requires
        h <= i32::MAX,
        0 <= y,
    ensures
        (column_block(h, y) == BlockType::Grass) == (y == h),
        (column_block(h, y) == BlockType::Air) == (y > h),
        (column_block(h, y) == BlockType::Dirt) == (h - 3 <= y && y < h),
        (column_block(h, y) == BlockType::Stone) == (y + 3 < h),
{
}

/// Law: the dirt below the surface of a column of height `h` is three
/// blocks deep, or the whole column under the grass where it is lower: the
/// blocks from `0` to `h` hold `min(h, 3)` dirt blocks, all directly under
/// the grass, and every block between the ground and the surface is filled.
pub proof fn law_dirt_depth(h: u32, y: int)
    requires
        h <= i32::MAX,
        0 <= y < h,
    ensures
        column_block(h, y) != BlockType::Air,
        column_block(h, y) != BlockType::Grass,
        y >= h - 3 ==> column_block(h, y) == BlockType::Dirt,
        h <= 3 ==> column_block(h, y) == BlockType::Dirt,
        column_block(h, y) == BlockType::Stone ==> column_block(h, y + 1) != BlockType::Grass,
{
}

/// A height map that covers a chunk: at least `CHUNK_SIZE` rows (z) of at
/// least `CHUNK_SIZE` heights (x), each of which either fits in the chunk
/// or lies beyond `i32::MAX`.
pub open spec fn heights_fit(height_map: Seq<Vec<u32>>) -> bool {
    &&& height_map.len() >= CHUNK_SIZE
    &&& forall|z: int| 0 <= z < CHUNK_SIZE ==> (#[trigger] height_map[z]).len() >= CHUNK_SIZE
    &&& forall|z: int, x: int|
        0 <= z < CHUNK_SIZE && 0 <= x < CHUNK_SIZE ==> #[trigger] height_map[z]@[x] < CHUNK_SIZE
            || height_map[z]@[x] > i32::MAX
}

/// The block that the height map puts at local position `p`.
pub open spec fn terrain_block(height_map: Seq<Vec<u32>>, p: IVec3) -> BlockType {
    column_block(height_map[p.z as int]@[p.x as int], p.y as int)
}

/// Some column of the chunk is not empty.
pub open spec fn any_column(height_map: Seq<Vec<u32>>) -> bool {
    exists|z: int, x: int|
        0 <= z < CHUNK_SIZE && 0 <= x < CHUNK_SIZE && #[trigger] height_map[z]@[x] <= i32::MAX
}

/// The chunk at `chunk_pos` whose columns rise to the heights of
/// `height_map` (indexed `[z][x]`), with grass on top, three layers of dirt
/// below and stone further down. The chunk is dirty when some block was
/// written, that is when some column is not empty.
pub fn generate_chunk_from_heights(height_map: &Vec<Vec<u32>>, chunk_pos: IVec3) -> (r: Chunk)
    requires
        heights_fit(height_map@),
    ensures
        r.chunk_pos == chunk_pos,
        r.octree.side() == CHUNK_SIZE,
        r.octree.is_compact() && r.octree.is_shaped(),
        r.dirty == any_column(height_map@),
        forall|p: IVec3| in_cube(CHUNK_SIZE, p) ==> #[trigger] r.octree.block(p) == terrain_block(height_map@, p),
{
    let mut new_chunk = Chunk::new(chunk_pos, BlockType::Air).unwrap();
    proof {
        assert(is_pow2(32)) by {
            reveal_with_fuel(is_pow2, 6);
        }
    }
    let size: i32 = 32;
    let mut x: i32 = 0;
    while x < size
        invariant
            0 <= x <= 32,
            size == 32,
            heights_fit(height_map@),
            is_pow2(32),
            new_chunk.chunk_pos == chunk_pos,
            new_chunk.octree.side() == CHUNK_SIZE,
            new_chunk.octree.is_compact() && new_chunk.octree.is_shaped(),
            new_chunk.dirty == exists|zz: int, xx: int|
                0 <= zz < CHUNK_SIZE && 0 <= xx < x && #[trigger] height_map@[zz]@[xx] <= i32::MAX,
            forall|p: IVec3|
                in_cube(CHUNK_SIZE, p) ==> #[trigger] new_chunk.octree.block(p) == if p.x < x {
                    terrain_block(height_map@, p)
                } else {
                    BlockType::Air
                },
        decreases 32 - x,
    {
        let mut z: i32 = 0;
        while z < size
            invariant
                0 <= x < 32,
                0 <= z <= 32,
                size == 32,
                heights_fit(height_map@),
                is_pow2(32),
                new_chunk.chunk_pos == chunk_pos,
                new_chunk.octree.side() == CHUNK_SIZE,
                new_chunk.octree.is_compact() && new_chunk.octree.is_shaped(),
                new_chunk.dirty == exists|zz: int, xx: int|
                    0 <= zz < CHUNK_SIZE && 0 <= xx < CHUNK_SIZE && (xx < x || (xx == x && zz < z))
                        && #[trigger] height_map@[zz]@[xx] <= i32::MAX,
                forall|p: IVec3|
                    in_cube(CHUNK_SIZE, p) ==> #[trigger] new_chunk.octree.block(p) == if p.x < x || (p.x == x
                        && p.z < z) {
                        terrain_block(height_map@, p)
                    } else {
                        BlockType::Air
                    },
            decreases 32 - z,
        {
            let hu = height_map[z as usize][x as usize];
            let h: i32 = if hu > 2147483647u32 {
                // wraps to a negative `i32`: the column stays empty
                -1
            } else {
                hu as i32
            };
            let mut y: i32 = 0;
            while y <= h
                invariant
                    0 <= x < 32,
                    0 <= z < 32,
                    0 <= y,
                    y <= h + 1 || (h < 0 && y == 0),
                    h < 32,
                    h == (if hu > i32::MAX { -1 } else { hu as int }),
                    hu == height_map@[z as int]@[x as int],
                    size == 32,
                    heights_fit(height_map@),
                    is_pow2(32),
                    new_chunk.chunk_pos == chunk_pos,
                    new_chunk.octree.side() == CHUNK_SIZE,
                new_chunk.octree.is_compact() && new_chunk.octree.is_shaped(),
                    new_chunk.dirty == ((exists|zz: int, xx: int|
                        0 <= zz < CHUNK_SIZE && 0 <= xx < CHUNK_SIZE && (xx < x || (xx == x && zz < z))
                            && #[trigger] height_map@[zz]@[xx] <= i32::MAX) || y > 0),
                    forall|p: IVec3|
                        in_cube(CHUNK_SIZE, p) ==> #[trigger] new_chunk.octree.block(p) == if p.x < x || (p.x
                            == x && p.z < z) || (p.x == x && p.z == z && p.y < y) {
                            terrain_block(height_map@, p)
                        } else {
                            BlockType::Air
                        },
                decreases h + 1 - y,
            {
                let block_type = if y == h {
                    BlockType::Grass
                } else if y >= h - 3 {
                    BlockType::Dirt
                } else {
                    BlockType::Stone
                };
                let r = new_chunk.set_local(IVec3 { x, y, z }, block_type);
                if r.is_err() {
                    proof {
                        assert(false);
                    }
                }
                y += 1;
            }
            proof {
                let e_old = exists|zz: int, xx: int|
                    0 <= zz < CHUNK_SIZE && 0 <= xx < CHUNK_SIZE && (xx < x || (xx == x && zz < z))
                        && #[trigger] height_map@[zz]@[xx] <= i32::MAX;
                let e_new = exists|zz: int, xx: int|
                    0 <= zz < CHUNK_SIZE && 0 <= xx < CHUNK_SIZE && (xx < x || (xx == x && zz < z + 1))
                        && #[trigger] height_map@[zz]@[xx] <= i32::MAX;
                assert(y > 0 <==> hu <= i32::MAX);
                assert(e_new == (e_old || hu <= i32::MAX)) by {
                    if e_new {
                        let (zz, xx) = choose|zz: int, xx: int|
                            0 <= zz < CHUNK_SIZE && 0 <= xx < CHUNK_SIZE && (xx < x || (xx == x && zz < z + 1))
                                && #[trigger] height_map@[zz]@[xx] <= i32::MAX;
                        if !(xx == x && zz == z) {
                            assert(e_old);
                        }
                    }
                    if hu <= i32::MAX {
                        assert(height_map@[z as int]@[x as int] <= i32::MAX);
                    }
                }
            }
            z += 1;
        }
        x += 1;
    }
    new_chunk
}

} // verus!
