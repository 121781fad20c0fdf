use std::collections::HashMap;

use vstd::prelude::*;

use crate::world::chunk::{Chunk, CHUNK_SIZE};
use crate::world::errors::OctreeError;
use crate::world::octree::{in_box, in_cube, written};
use crate::world::position::IVec3;
use crate::world::voxel::BlockType;

verus! {

broadcast use vstd::std_specs::hash::group_hash_axioms;

/// The chunks that are loaded, each under the key (`chunk_key`) of its
/// chunk coordinates, and the render entity (by its id) that draws each of
/// them.
pub struct ChunkManager {
    pub loaded_chunks: HashMap<u128, Chunk>,
    pub chunk_entities: HashMap<u128, u64>,
}

/// The key under which chunk coordinates `k` are stored: the three
/// coordinates, each shifted to be non-negative, side by side in 32-bit
/// fields.
pub open spec fn chunk_key(k: IVec3) -> u128 {
    ((k.x + 0x8000_0000) * 0x1_0000_0000_0000_0000 + (k.y + 0x8000_0000) * 0x1_0000_0000 + (k.z
        + 0x8000_0000)) as u128
}

/// Different chunk coordinates have different keys.
pub proof fn lemma_chunk_key_injective(a: IVec3, b: IVec3)
    requires
        chunk_key(a) == chunk_key(b),
    ensures
        a == b,
{
    let (ax, ay, az) = (a.x + 0x8000_0000, a.y + 0x8000_0000, a.z + 0x8000_0000);
    let (bx, by, bz) = (b.x + 0x8000_0000, b.y + 0x8000_0000, b.z + 0x8000_0000);
    assert(ax * 0x1_0000_0000_0000_0000 + ay * 0x1_0000_0000 + az == bx * 0x1_0000_0000_0000_0000 + by
        * 0x1_0000_0000 + bz);
    assert(ax == bx && ay == by && az == bz) by (nonlinear_arith)
        requires
            0 <= ax < 0x1_0000_0000,
            0 <= ay < 0x1_0000_0000,
            0 <= az < 0x1_0000_0000,
            0 <= bx < 0x1_0000_0000,
            0 <= by < 0x1_0000_0000,
            0 <= bz < 0x1_0000_0000,
            ax * 0x1_0000_0000_0000_0000 + ay * 0x1_0000_0000 + az == bx * 0x1_0000_0000_0000_0000 + by
                * 0x1_0000_0000 + bz,
    ;
}

/// The chunk coordinates of the chunk that holds world position `p`.
pub open spec fn chunk_of(p: IVec3) -> IVec3 {
    IVec3 {
        x: (p.x as int / CHUNK_SIZE as int) as i32,
        y: (p.y as int / CHUNK_SIZE as int) as i32,
        z: (p.z as int / CHUNK_SIZE as int) as i32,
    }
}

/// The position of world position `p` inside its chunk.
pub open spec fn local_of(p: IVec3) -> IVec3 {
    IVec3 {
        x: (p.x as int % CHUNK_SIZE as int) as i32,
        y: (p.y as int % CHUNK_SIZE as int) as i32,
        z: (p.z as int % CHUNK_SIZE as int) as i32,
    }
}

/// `after` and the answer `r` are what writing `block` at world position `p`
/// leaves of `before`: no other chunk changes; where no chunk holds `p`
/// nothing changes and the answer is `Ok`; else the chunk keeps its place
/// and side, and either refuses the local position (`OutOfBounds`, the
/// chunk unchanged) or takes the write and turns dirty.
pub open spec fn world_written(
    before: ChunkManager,
    after: ChunkManager,
    p: IVec3,
    block: BlockType,
    r: Result<(), OctreeError>,
) -> bool {
    &&& forall|k: IVec3| k != chunk_of(p) ==> #[trigger] after.chunk_at(k) == before.chunk_at(k)
    &&& before.chunk_at(chunk_of(p)) is None ==> r == Ok::<(), OctreeError>(()) && after.chunk_at(chunk_of(p)) is None
    &&& before.chunk_at(chunk_of(p)) matches Some(c) ==> after.chunk_at(chunk_of(p)) matches Some(d) && {
        &&& d.chunk_pos == c.chunk_pos
        &&& d.octree.side() == c.octree.side()
        &&& !in_cube(c.octree.side(), local_of(p)) ==> r == Err::<(), OctreeError>(OctreeError::OutOfBounds)
            && d == c
        &&& in_cube(c.octree.side(), local_of(p)) ==> r == Ok::<(), OctreeError>(()) && d.dirty && written(
            c.octree,
            d.octree,
            local_of(p),
            block,
        )
    }
}

/// Law: a block written at a world position is read back there, and where
/// no chunk holds the position, air is read before and after.
pub proof fn law_world_read_after_write(
    before: ChunkManager,
    after: ChunkManager,
    p: IVec3,
    block: BlockType,
    r: Result<(), OctreeError>,
)
    requires
        world_written(before, after, p, block, r),
    ensures
        r is Ok ==> after.world_block(p) == (if before.chunk_at(chunk_of(p)) is Some {
            Ok::<BlockType, OctreeError>(block)
        } else {
            Ok::<BlockType, OctreeError>(BlockType::Air)
        }),
        r is Err ==> after.world_block(p) == before.world_block(p),
{
}

impl ChunkManager {
    /// The chunk loaded under chunk coordinates `key`, if any.
    pub open spec fn chunk_at(&self, key: IVec3) -> Option<Chunk> {
        if self.loaded_chunks@.contains_key(chunk_key(key)) {
            Some(self.loaded_chunks@[chunk_key(key)])
        } else {
            None
        }
    }

    /// What `get_block_world` answers for world position `p`: air where no
    /// chunk is loaded, else what the chunk holds at the local position.
    pub open spec fn world_block(&self, p: IVec3) -> Result<BlockType, OctreeError> {
        match self.chunk_at(chunk_of(p)) {
            Some(c) => if in_cube(c.octree.side(), local_of(p)) {
                Ok(c.octree.block(local_of(p)))
            } else {
                Err(OctreeError::OutOfBounds)
            },
            None => Ok(BlockType::Air),
        }
    }

    /// Whether world position `p` holds a block other than air.
    pub open spec fn world_solid(&self, p: IVec3) -> bool {
        self.world_block(p) matches Ok(b) && b != BlockType::Air
    }

    /// A manager with no chunk loaded.
    pub fn new() -> (r: Self)
        ensures
            r.loaded_chunks@ == Map::<u128, Chunk>::empty(),
            r.chunk_entities@ == Map::<u128, u64>::empty(),
    {
        ChunkManager { loaded_chunks: HashMap::new(), chunk_entities: HashMap::new() }
    }

    /// The key under which chunk coordinates `key` are stored.
    pub fn key_of(key: IVec3) -> (r: u128)
        ensures
            r == chunk_key(key),
    {
        let x: u128 = (key.x as i64 + 0x8000_0000i64) as u128;
        let y: u128 = (key.y as i64 + 0x8000_0000i64) as u128;
        let z: u128 = (key.z as i64 + 0x8000_0000i64) as u128;
        x * 0x1_0000_0000_0000_0000u128 + y * 0x1_0000_0000u128 + z
    }

    /// Loads `chunk` under chunk coordinates `key`, in place of the chunk
    /// loaded there before, which is handed back.
    pub fn insert_chunk(&mut self, key: IVec3, chunk: Chunk) -> (r: Option<Chunk>)
        ensures
            r == old(self).chunk_at(key),
            final(self).chunk_at(key) == Some(chunk),
            forall|k: IVec3| k != key ==> #[trigger] final(self).chunk_at(k) == old(self).chunk_at(k),
            final(self).chunk_entities@ == old(self).chunk_entities@,
    {
        let r = self.loaded_chunks.insert(Self::key_of(key), chunk);
        proof {
            assert forall|k: IVec3| k != key implies #[trigger] self.chunk_at(k) == old(self).chunk_at(k) by {
                if chunk_key(k) == chunk_key(key) {
                    lemma_chunk_key_injective(k, key);
                }
            }
        }
        r
    }

    /// The chunk loaded under chunk coordinates `key`, if any.
    pub fn get_chunk(&self, key: IVec3) -> (r: Option<&Chunk>)
        ensures
            match self.chunk_at(key) {
                Some(c) => r matches Some(x) && *x == c,
                None => r is None,
            },
    {
        let k = Self::key_of(key);
        self.loaded_chunks.get(&k)
    }

    /// The world position of local position `local` of the chunk at chunk
    /// coordinates `chunk_pos`: `chunk_pos * CHUNK_SIZE + local` on each
    /// axis; for a position inside the chunk, `world_to_chunk_and_local`
    /// splits it back.
    pub fn local_to_world(chunk_pos: IVec3, local: IVec3) -> (r: IVec3)
        requires
            i32::MIN <= chunk_pos.x * CHUNK_SIZE + local.x <= i32::MAX,
            i32::MIN <= chunk_pos.y * CHUNK_SIZE + local.y <= i32::MAX,
            i32::MIN <= chunk_pos.z * CHUNK_SIZE + local.z <= i32::MAX,
        ensures
            r.x == chunk_pos.x * CHUNK_SIZE + local.x,
            r.y == chunk_pos.y * CHUNK_SIZE + local.y,
            r.z == chunk_pos.z * CHUNK_SIZE + local.z,
            in_cube(CHUNK_SIZE, local) ==> chunk_of(r) == chunk_pos && local_of(r) == local,
    {
        let x = (chunk_pos.x as i64 * 32 + local.x as i64) as i32;
        let y = (chunk_pos.y as i64 * 32 + local.y as i64) as i32;
        let z = (chunk_pos.z as i64 * 32 + local.z as i64) as i32;
        let r = IVec3::new(x, y, z);
        proof {
            if in_cube(CHUNK_SIZE, local) {
                vstd::arithmetic::div_mod::lemma_fundamental_div_mod_converse(r.x as int, 32, chunk_pos.x as int, local.x as int);
                vstd::arithmetic::div_mod::lemma_fundamental_div_mod_converse(r.y as int, 32, chunk_pos.y as int, local.y as int);
                vstd::arithmetic::div_mod::lemma_fundamental_div_mod_converse(r.z as int, 32, chunk_pos.z as int, local.z as int);
            }
        }
        r
    }

    /// Splits a world position into the chunk coordinates of its chunk and
    /// its position inside that chunk (floored division by the chunk side).
    pub fn world_to_chunk_and_local(world_pos: IVec3) -> (r: (IVec3, IVec3))
        ensures
            r.0 == chunk_of(world_pos),
            r.1 == local_of(world_pos),
            0 <= r.1.x < CHUNK_SIZE && 0 <= r.1.y < CHUNK_SIZE && 0 <= r.1.z < CHUNK_SIZE,
            r.0.x * CHUNK_SIZE + r.1.x == world_pos.x,
            r.0.y * CHUNK_SIZE + r.1.y == world_pos.y,
            r.0.z * CHUNK_SIZE + r.1.z == world_pos.z,
    {
        let size: i32 = 32;
        let chunk_x = world_pos.x.checked_div_euclid(size).unwrap();
        let chunk_y = world_pos.y.checked_div_euclid(size).unwrap();
        let chunk_z = world_pos.z.checked_div_euclid(size).unwrap();
        let local_x = world_pos.x.checked_rem_euclid(size).unwrap();
        let local_y = world_pos.y.checked_rem_euclid(size).unwrap();
        let local_z = world_pos.z.checked_rem_euclid(size).unwrap();
        let chunk_pos = IVec3::new(chunk_x, chunk_y, chunk_z);
        let local_pos = IVec3::new(local_x, local_y, local_z);
        (chunk_pos, local_pos)
    }

    /// The block at a world position: air where no chunk is loaded.
    pub fn get_block_world(&self, world_pos: IVec3) -> (r: Result<BlockType, OctreeError>)
        ensures
            r == self.world_block(world_pos),
    {
        let (chunk_pos, local_pos) = Self::world_to_chunk_and_local(world_pos);
        match self.get_chunk(chunk_pos) {
            Some(chunk) => chunk.get_local(local_pos),
            None => Ok(BlockType::Air),
        }
    }

    /// Writes `block` at a world position, in the chunk that holds it;
    /// where no chunk is loaded nothing changes and the answer is `Ok`.
    pub fn set_block_world(&mut self, world_pos: IVec3, block: BlockType) -> (r: Result<(), OctreeError>)
        ensures
            world_written(*old(self), *final(self), world_pos, block, r),
            final(self).chunk_entities@ == old(self).chunk_entities@,
    {
        let (chunk_pos, local_pos) = Self::world_to_chunk_and_local(world_pos);
        let k = Self::key_of(chunk_pos);
        match self.loaded_chunks.remove(&k) {
            Some(mut chunk) => {
                let r = chunk.set_local(local_pos, block);
                self.loaded_chunks.insert(k, chunk);
                proof {
                    assert(self.loaded_chunks@ == old(self).loaded_chunks@.insert(k, chunk));
                    assert forall|q: IVec3| q != chunk_pos implies #[trigger] self.chunk_at(q) == old(self).chunk_at(q) by {
                        if chunk_key(q) == chunk_key(chunk_pos) {
                            lemma_chunk_key_injective(q, chunk_pos);
                        }
                    }
                }
                r
            },
            None => Ok(()),
        }
    }

    /// Whether a world position holds a block other than air; a position
    /// whose chunk refuses it counts as empty.
    pub fn is_solid_world(&self, world_pos: IVec3) -> (r: bool)
        ensures
            r == self.world_solid(world_pos),
    {
        match self.get_block_world(world_pos) {
            Ok(block) => block.is_solid(),
            Err(_) => false,
        }
    }
    /// Whether some position of the box with corners `min` and `max` (both
    /// included) holds a block other than air; an empty box holds none.
    pub fn any_solid_in_box(&self, min: IVec3, max: IVec3) -> (r: bool)
        ensures
            r == exists|p: IVec3| in_box(min, max, p) && #[trigger] self.world_solid(p),
    {
        let mut x: i64 = min.x as i64;
        while x <= max.x as i64
            invariant
                min.x <= x,
                x <= max.x + 1 || x == min.x,
                forall|p: IVec3| in_box(min, max, p) && p.x < x ==> !#[trigger] self.world_solid(p),
            decreases max.x + 1 - x,
        {
            let mut y: i64 = min.y as i64;
            while y <= max.y as i64
                invariant
                    min.x <= x <= max.x,
                    min.y <= y,
                    y <= max.y + 1 || y == min.y,
                    forall|p: IVec3| in_box(min, max, p) && (p.x < x || (p.x == x && p.y < y))
                        ==> !#[trigger] self.world_solid(p),
                decreases max.y + 1 - y,
            {
                let mut z: i64 = min.z as i64;
                while z <= max.z as i64
                    invariant
                        min.x <= x <= max.x,
                        min.y <= y <= max.y,
                        min.z <= z,
                        z <= max.z + 1 || z == min.z,
                        forall|p: IVec3| in_box(min, max, p) && (p.x < x || (p.x == x && p.y < y) || (p.x == x
                            && p.y == y && p.z < z)) ==> !#[trigger] self.world_solid(p),
                    decreases max.z + 1 - z,
                {
                    let p = IVec3::new(x as i32, y as i32, z as i32);
                    if self.is_solid_world(p) {
                        proof {
                            assert(in_box(min, max, p));
                        }
                        return true;
                    }
                    z += 1;
                }
                y += 1;
            }
            x += 1;
        }
        false
    }
}

} // verus!
