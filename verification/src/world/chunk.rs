use vstd::prelude::*;

use crate::world::errors::OctreeError;
use crate::world::octree::{Octree, in_cube, written};
use crate::world::position::IVec3;
use crate::world::voxel::BlockType;

verus! {

/// The side of a chunk, in voxels.
pub const CHUNK_SIZE: u32 = 32;

/// A cube of `CHUNK_SIZE` voxels a side at chunk coordinates `chunk_pos`,
/// with a flag that records changes not yet drawn.
pub struct Chunk {
    pub chunk_pos: IVec3,
    pub octree: Octree,
    pub dirty: bool,
}

impl Chunk {
    /// A clean chunk filled with `fill`.
    pub fn new(chunk_pos: IVec3, fill: BlockType) -> (r: Result<Self, OctreeError>)
        ensures
            r matches Ok(c) && c.chunk_pos == chunk_pos && !c.dirty && c.octree.side() == CHUNK_SIZE
                && c.octree.is_compact() && c.octree.is_shaped() && forall|p: IVec3| #[trigger] c.octree.block(p) == fill,
    {
        match Octree::new(CHUNK_SIZE, fill) {
            Err(error) => {
                proof {
                    assert(crate::world::octree::is_pow2(32)) by {
                        reveal_with_fuel(crate::world::octree::is_pow2, 6);
                    }
                }
                Err(error)
            },
            Ok(tree) => Ok(Self { chunk_pos, octree: tree, dirty: false }),
        }
    }

    /// The block at local position `pos`, or `OutOfBounds` outside the chunk.
    pub fn get_local(&self, pos: IVec3) -> (r: Result<BlockType, OctreeError>)
        ensures
            in_cube(self.octree.side(), pos) ==> r == Ok::<BlockType, OctreeError>(self.octree.block(pos)),
            !in_cube(self.octree.side(), pos) ==> r == Err::<BlockType, OctreeError>(OctreeError::OutOfBounds),
    {
        self.octree.get(pos)
    }

    /// Writes `block` at local position `pos` and marks the chunk dirty;
    /// outside the chunk refuses with `OutOfBounds` and changes nothing.
    pub fn set_local(&mut self, pos: IVec3, block: BlockType) -> (r: Result<(), OctreeError>)
        ensures
            final(self).chunk_pos == old(self).chunk_pos,
            final(self).octree.side() == old(self).octree.side(),
            !in_cube(old(self).octree.side(), pos) ==> r == Err::<(), OctreeError>(OctreeError::OutOfBounds)
                && final(self).dirty == old(self).dirty && forall|q: IVec3| #[trigger] final(self).octree.block(q)
                == old(self).octree.block(q),
            in_cube(old(self).octree.side(), pos) ==> r == Ok::<(), OctreeError>(()) && final(self).dirty
                && written(old(self).octree, final(self).octree, pos, block),
            old(self).octree.is_compact() ==> final(self).octree.is_compact(),
            old(self).octree.is_shaped() ==> final(self).octree.is_shaped(),
            r is Err ==> *final(self) == *old(self),
    {
        self.octree.set(pos, block)?;
        self.dirty = true;
        Ok(())
    }

    /// Empties local position `pos` and marks the chunk dirty; outside the
    /// chunk refuses with `OutOfBounds` and changes nothing.
    pub fn remove_local(&mut self, pos: IVec3) -> (r: Result<(), OctreeError>)
        ensures
            final(self).chunk_pos == old(self).chunk_pos,
            final(self).octree.side() == old(self).octree.side(),
            !in_cube(old(self).octree.side(), pos) ==> r == Err::<(), OctreeError>(OctreeError::OutOfBounds)
                && final(self).dirty == old(self).dirty && forall|q: IVec3| #[trigger] final(self).octree.block(q)
                == old(self).octree.block(q),
            in_cube(old(self).octree.side(), pos) ==> r == Ok::<(), OctreeError>(()) && final(self).dirty
                && written(old(self).octree, final(self).octree, pos, BlockType::Air),
            old(self).octree.is_compact() ==> final(self).octree.is_compact(),
            old(self).octree.is_shaped() ==> final(self).octree.is_shaped(),
            r is Err ==> *final(self) == *old(self),
    {
        self.octree.remove(pos)?;
        self.dirty = true;
        Ok(())
    }

    /// Whether the chunk changed since it was last drawn.
    pub fn is_dirty(&self) -> (r: bool)
        ensures
            r == self.dirty,
    {
        self.dirty
    }

    /// Marks the chunk as drawn.
    pub fn clear_dirty(&mut self)
        ensures
            !final(self).dirty,
            final(self).chunk_pos == old(self).chunk_pos,
            final(self).octree == old(self).octree,
    {
        self.dirty = false;
    }
}

} // verus!
