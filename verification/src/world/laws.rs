use vstd::prelude::*;

use crate::world::chunk::Chunk;
use crate::world::errors::OctreeError;
use crate::world::octree::{Octree, in_cube, is_pow2, law_merged_iff_compact, leaves_merged, moved, written};
use crate::world::position::IVec3;
use crate::world::voxel::BlockType;

verus! {

/// Law: of two writes at the same position, the second is what remains;
/// the first leaves no trace.
pub proof fn law_last_write_wins(
    a: Octree,
    b: Octree,
    c: Octree,
    pos: IVec3,
    first: BlockType,
    second: BlockType,
)
    requires
        in_cube(a.side(), pos),
        written(a, b, pos, first),
        written(b, c, pos, second),
    ensures
        written(a, c, pos, second),
{
}

/// Law: in a cube whose side is a power of two, writes at two different
/// positions give the same blocks in either order.
pub proof fn law_writes_commute(
    a: Octree,
    b: Octree,
    c: Octree,
    b2: Octree,
    c2: Octree,
    p: IVec3,
    q: IVec3,
    x: BlockType,
    y: BlockType,
)
    requires
        is_pow2(a.side() as int),
        in_cube(a.side(), p),
        in_cube(a.side(), q),
        p != q,
        written(a, b, p, x),
        written(b, c, q, y),
        written(a, b2, q, y),
        written(b2, c2, p, x),
    ensures
        c.side() == c2.side(),
        forall|r: IVec3| in_cube(a.side(), r) ==> #[trigger] c.block(r) == c2.block(r),
{
    assert forall|r: IVec3| in_cube(a.side(), r) implies #[trigger] c.block(r) == c2.block(r) by {
        if r != p && r != q {
            assert(c.block(r) == b.block(r));
            assert(c2.block(r) == b2.block(r));
        } else if r == p {
            assert(c.block(p) == b.block(p));
        } else {
            assert(c2.block(q) == b2.block(q));
        }
    }
}

/// Law: in a cube whose side is a power of two, writing the block that a
/// position already holds changes no block.
pub proof fn law_rewrite_is_identity(a: Octree, b: Octree, pos: IVec3)
    requires
        is_pow2(a.side() as int),
        in_cube(a.side(), pos),
        written(a, b, pos, a.block(pos)),
    ensures
        forall|r: IVec3| in_cube(a.side(), r) ==> #[trigger] b.block(r) == a.block(r),
{
}

/// Law: in a cube whose side is a power of two, moving a block away and
/// back puts it where it was, leaves air where it went, and changes no
/// other block.
pub proof fn law_move_there_and_back(a: Octree, b: Octree, c: Octree, p: IVec3, q: IVec3)
    requires
        is_pow2(a.side() as int),
        in_cube(a.side(), p),
        in_cube(a.side(), q),
        p != q,
        moved(a, b, p, q),
        moved(b, c, q, p),
    ensures
        c.block(p) == a.block(p),
        c.block(q) == BlockType::Air,
        forall|r: IVec3| in_cube(a.side(), r) && r != p && r != q ==> #[trigger] c.block(r) == a.block(r),
{
}

/// What each call that takes an octree by `&mut` (`set`, `remove`,
/// `move_block`, `fill_region`, `clear`) ensures of the tree it leaves,
/// whether it succeeds or not: the same side, and compactness and the right
/// form kept.
pub open spec fn tree_step(before: Octree, after: Octree) -> bool {
    &&& after.side() == before.side()
    &&& before.is_compact() ==> after.is_compact()
    &&& before.is_shaped() ==> after.is_shaped()
}

/// Law: over any sequence of such calls, the side never changes, and a
/// tree that starts compact and of the right form (as `new` builds it)
/// stays so.
pub proof fn law_side_and_form_are_kept(trees: Seq<Octree>)
    requires
        trees.len() > 0,
        forall|i: int| 0 <= i < trees.len() - 1 ==> #[trigger] tree_step(trees[i], trees[i + 1]),
    ensures
        trees.last().side() == trees[0].side(),
        trees[0].is_compact() ==> trees.last().is_compact(),
        trees[0].is_shaped() ==> trees.last().is_shaped(),
    decreases trees.len(),
{
    if trees.len() > 1 {
        let init = trees.drop_last();
        assert forall|i: int| 0 <= i < init.len() - 1 implies #[trigger] tree_step(init[i], init[i + 1]) by {
            assert(tree_step(trees[i], trees[i + 1]));
        }
        law_side_and_form_are_kept(init);
        let k = trees.len() - 2;
        assert(tree_step(trees[k], trees[k + 1]));
        assert(init.last() == trees[k] && init[0] == trees[0]);
    }
}

/// Law: a call that takes an octree by `&mut` keeps the leaves of a tree of
/// the right form as merged as its blocks allow.
pub proof fn law_writes_keep_leaves_merged(before: Octree, after: Octree)
    requires
        tree_step(before, after),
        before.is_shaped(),
        leaves_merged(before),
    ensures
        leaves_merged(after),
{
    law_merged_iff_compact(before);
    law_merged_iff_compact(after);
}

/// A call on a chunk, as far as its dirty flag is concerned: a read
/// (`get_local`, `is_dirty`), a write (`set_local`, `remove_local`) with
/// its answer, or `clear_dirty`.
pub ghost enum ChunkCall {
    Read,
    Write(Result<(), OctreeError>),
    ClearDirty,
}

/// What each call ensures of the chunk it leaves: a read changes nothing, a
/// write that succeeds leaves the chunk dirty and one that fails changes
/// nothing, `clear_dirty` leaves it clean.
pub open spec fn chunk_step(before: Chunk, after: Chunk, call: ChunkCall) -> bool {
    match call {
        ChunkCall::Read => after == before,
        ChunkCall::Write(r) => if r is Ok {
            after.dirty
        } else {
            after == before
        },
        ChunkCall::ClearDirty => !after.dirty,
    }
}

/// Whether a chunk whose flag was `start` is dirty after `calls`: some
/// write succeeded after the last `clear_dirty` (or, without one, the flag
/// was already set).
pub open spec fn dirty_after(start: bool, calls: Seq<ChunkCall>) -> bool
    decreases calls.len(),
{
    if calls.len() == 0 {
        start
    } else {
        match calls.last() {
            ChunkCall::Read => dirty_after(start, calls.drop_last()),
            ChunkCall::Write(r) => r is Ok || dirty_after(start, calls.drop_last()),
            ChunkCall::ClearDirty => false,
        }
    }
}

/// Law: over any sequence of calls on a chunk, the chunk is dirty exactly
/// when a write succeeded after the last `clear_dirty` (or after `new`,
/// which leaves it clean, when there was none); reads and refused writes
/// never change the flag.
pub proof fn law_dirty_flag(chunks: Seq<Chunk>, calls: Seq<ChunkCall>)
    requires
        chunks.len() == calls.len() + 1,
        forall|i: int| 0 <= i < calls.len() ==> #[trigger] chunk_step(chunks[i], chunks[i + 1], calls[i]),
    ensures
        chunks.last().dirty == dirty_after(chunks[0].dirty, calls),
    decreases calls.len(),
{
    if calls.len() > 0 {
        let n = calls.len() - 1;
        let init = chunks.drop_last();
        assert forall|i: int| 0 <= i < calls.drop_last().len() implies #[trigger] chunk_step(
            init[i],
            init[i + 1],
            calls.drop_last()[i],
        ) by {
            assert(chunk_step(chunks[i], chunks[i + 1], calls[i]));
        }
        law_dirty_flag(init, calls.drop_last());
        assert(chunk_step(chunks[n], chunks[n + 1], calls[n]));
    }
}

} // verus!
