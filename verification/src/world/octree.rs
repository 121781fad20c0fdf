use vstd::prelude::*;

use crate::world::errors::OctreeError;
use crate::world::position::IVec3;
use crate::json::{
    JsonValue, JsonView, canonical, chars_before, items_view, json_get, json_of_text, json_text, json_view, key_index, lemma_items_view,
    lemma_members_view, members_view, parse_json_text, text_of_json,
};
use crate::world::voxel::{BlockType, block_name, block_named, lemma_block_name_round_trip};

verus! {

broadcast use vstd::std_specs::vec::group_vec_axioms;

/// A node of the tree: a uniform cube, or eight octants.
enum Node {
    Leaf(BlockType),
    Children(Vec<Node>),
}

/// A cube of voxels of side `size`, with its corner at the origin, stored
/// as a tree of octants that are split only where their blocks differ.
pub struct Octree {
    size: u32,
    root: Node,
}

/// Whether `n` is a power of two.
pub open spec fn is_pow2(n: int) -> bool
    decreases n,
{
    if n <= 0 {
        false
    } else if n == 1 {
        true
    } else {
        n % 2 == 0 && is_pow2(n / 2)
    }
}

/// Whether `pos` lies in the cube of side `size` at the origin. A side that
/// does not fit in an `i32` holds no position.
pub open spec fn in_cube(size: u32, pos: IVec3) -> bool {
    &&& size <= i32::MAX
    &&& 0 <= pos.x < size
    &&& 0 <= pos.y < size
    &&& 0 <= pos.z < size
}

/// Whether `q` lies in the box with corners `min` and `max`, both included.
pub open spec fn in_box(min: IVec3, max: IVec3, q: IVec3) -> bool {
    &&& min.x <= q.x <= max.x
    &&& min.y <= q.y <= max.y
    &&& min.z <= q.z <= max.z
}

/// A box that `fill_region` accepts: not empty on any axis, and with both
/// corners inside the cube of side `size`.
pub open spec fn region_ok(size: u32, min: IVec3, max: IVec3) -> bool {
    &&& min.x <= max.x && min.y <= max.y && min.z <= max.z
    &&& in_cube(size, min)
    &&& in_cube(size, max)
}

/// Whether `p` lies in the cube of side `size` with corner `origin`.
pub open spec fn in_region(origin: IVec3, size: int, p: IVec3) -> bool {
    &&& origin.x <= p.x < origin.x + size
    &&& origin.y <= p.y < origin.y + size
    &&& origin.z <= p.z < origin.z + size
}

/// The cube of side `size` at `origin` has non-negative coordinates, and
/// every corner inside it fits in an `i32`.
pub open spec fn fits(origin: IVec3, size: int) -> bool {
    &&& 0 <= origin.x && origin.x + size <= i32::MAX + 1
    &&& 0 <= origin.y && origin.y + size <= i32::MAX + 1
    &&& 0 <= origin.z && origin.z + size <= i32::MAX + 1
}

/// The octant (0..8) of the cube at `origin` with half side `half` that
/// `pos` falls in: bit 0 for x, bit 1 for y, bit 2 for z.
pub open spec fn octant(origin: IVec3, half: int, pos: IVec3) -> int {
    (if pos.x < origin.x + half { 0int } else { 1int })
        + (if pos.y < origin.y + half { 0int } else { 2int })
        + (if pos.z < origin.z + half { 0int } else { 4int })
}

/// The corner of octant `index` of the cube at `origin` with half side `half`.
pub open spec fn octant_origin(origin: IVec3, half: int, index: int) -> IVec3 {
    IVec3 {
        x: if index % 2 == 0 { origin.x } else { (origin.x + half) as i32 },
        y: if (index / 2) % 2 == 0 { origin.y } else { (origin.y + half) as i32 },
        z: if (index / 4) % 2 == 0 { origin.z } else { (origin.z + half) as i32 },
    }
}

/// Whether `p` and `q` fall in the same cell when the cube of side `size`
/// at `origin` is halved down to side one: in the same octant at every
/// halving. A write at `p` is a write at every `q` of its cell. Where the
/// side is a power of two, the cell of a position of the cube holds that
/// position alone (`lemma_cell_is_voxel`); where it is not, halving
/// rounds down and a cell can hold several positions.
pub open spec fn same_cell(origin: IVec3, size: int, p: IVec3, q: IVec3) -> bool
    decreases size,
{
    if size <= 1 {
        true
    } else {
        let h = size / 2;
        let i = octant(origin, h, p);
        i == octant(origin, h, q) && same_cell(octant_origin(origin, h, i), h, p, q)
    }
}

/// Whether `f` gives one block all over the cube of side `size` at `o`.
pub open spec fn uniform_in(f: spec_fn(IVec3) -> BlockType, o: IVec3, size: int) -> bool {
    forall|p: IVec3| in_region(o, size, p) ==> #[trigger] f(p) == f(o)
}

/// The leaves of the most merged tree that holds the blocks `f` over the
/// cube of side `size` at `o`: the whole cube where `f` gives one block
/// there (or the side is one), else the leaves of its octants 0 to 7 in
/// turn (bit 0 of the octant for x, bit 1 for y, bit 2 for z).
pub open spec fn canonical_leaves(f: spec_fn(IVec3) -> BlockType, o: IVec3, size: int) -> Seq<(IVec3, u32, BlockType)>
    decreases size,
{
    if size <= 1 || uniform_in(f, o, size) {
        seq![(o, size as u32, f(o))]
    } else {
        let h = size / 2;
        canonical_leaves(f, octant_origin(o, h, 0), h) + canonical_leaves(f, octant_origin(o, h, 1), h)
            + canonical_leaves(f, octant_origin(o, h, 2), h) + canonical_leaves(f, octant_origin(o, h, 3), h)
            + canonical_leaves(f, octant_origin(o, h, 4), h) + canonical_leaves(f, octant_origin(o, h, 5), h)
            + canonical_leaves(f, octant_origin(o, h, 6), h) + canonical_leaves(f, octant_origin(o, h, 7), h)
    }
}

/// The JSON document of the most merged tree that holds the blocks `f` over
/// the cube of side `size` at `o`: for a uniform cube an object with
/// `children` null and `type` the block's name; else an object with
/// `children` the documents of octants 0 to 7 and `type` the string
/// `"null"`.
pub open spec fn canonical_doc(f: spec_fn(IVec3) -> BlockType, o: IVec3, size: int) -> JsonView
    decreases size,
{
    if size <= 1 || uniform_in(f, o, size) {
        JsonView::Object(seq![("children"@, JsonView::Null), ("type"@, JsonView::String(block_name(f(o))))])
    } else {
        let h = size / 2;
        JsonView::Object(
            seq![
                ("children"@, JsonView::Array(seq![
                    canonical_doc(f, octant_origin(o, h, 0), h), canonical_doc(f, octant_origin(o, h, 1), h),
                    canonical_doc(f, octant_origin(o, h, 2), h), canonical_doc(f, octant_origin(o, h, 3), h),
                    canonical_doc(f, octant_origin(o, h, 4), h), canonical_doc(f, octant_origin(o, h, 5), h),
                    canonical_doc(f, octant_origin(o, h, 6), h), canonical_doc(f, octant_origin(o, h, 7), h),
                ])),
                ("type"@, JsonView::String("null"@)),
            ],
        )
    }
}

/// Every split node has exactly eight children.
spec fn node_wf(node: Node) -> bool
    decreases node,
{
    match node {
        Node::Leaf(_) => true,
        Node::Children(c) => {
            &&& c.len() == 8
            &&& node_wf(c[0]) && node_wf(c[1]) && node_wf(c[2]) && node_wf(c[3])
            &&& node_wf(c[4]) && node_wf(c[5]) && node_wf(c[6]) && node_wf(c[7])
        },
    }
}

/// The block that the tree `node`, covering the cube of side `size` at
/// `origin`, holds at `pos`.
spec fn lookup(node: Node, origin: IVec3, size: int, pos: IVec3) -> BlockType
    decreases node,
{
    match node {
        Node::Leaf(b) => b,
        Node::Children(c) => {
            let half = size / 2;
            let i = octant(origin, half, pos);
            if 0 <= i < c.len() {
                lookup(c@[i], octant_origin(origin, half, i), half, pos)
            } else {
                BlockType::Air
            }
        },
    }
}

/// The children of a split node; none for a leaf.
spec fn kids(node: Node) -> Seq<Node> {
    match node {
        Node::Children(c) => c@,
        Node::Leaf(_) => Seq::empty(),
    }
}

/// Eight leaves that all hold the same block: a node that should have been
/// a single leaf.
spec fn uniform_leaves(c: Seq<Node>) -> bool {
    &&& c.len() == 8
    &&& c[0] is Leaf
    &&& forall|i: int| 1 <= i < 8 ==> #[trigger] c[i] == c[0]
}

/// No split node of the tree has eight equal leaves as children.
spec fn compact(node: Node) -> bool
    decreases node,
{
    match node {
        Node::Leaf(_) => true,
        Node::Children(c) => {
            &&& c.len() == 8
            &&& !uniform_leaves(c@)
            &&& compact(c[0]) && compact(c[1]) && compact(c[2]) && compact(c[3])
            &&& compact(c[4]) && compact(c[5]) && compact(c[6]) && compact(c[7])
        },
    }
}

/// Every split node covers a cube of even side, at least two, which its
/// eight children halve: no node is split below a single voxel.
spec fn shaped(node: Node, size: int) -> bool
    decreases node,
{
    match node {
        Node::Leaf(_) => true,
        Node::Children(c) => {
            let h = size / 2;
            &&& size >= 2 && size % 2 == 0
            &&& c.len() == 8
            &&& shaped(c[0], h) && shaped(c[1], h) && shaped(c[2], h) && shaped(c[3], h)
            &&& shaped(c[4], h) && shaped(c[5], h) && shaped(c[6], h) && shaped(c[7], h)
        },
    }
}

/// The leaves of the tree `node` covering the cube of side `size` at
/// `origin`, in the order of a depth-first walk through octants 0 to 7:
/// the corner, side and block of each uniform cube.
spec fn leaves_of(node: Node, origin: IVec3, size: int) -> Seq<(IVec3, u32, BlockType)>
    decreases node,
{
    match node {
        Node::Leaf(b) => seq![(origin, size as u32, b)],
        Node::Children(c) => {
            let h = size / 2;
            if c.len() == 8 {
                leaves_of(c[0], octant_origin(origin, h, 0), h) + leaves_of(c[1], octant_origin(origin, h, 1), h)
                    + leaves_of(c[2], octant_origin(origin, h, 2), h) + leaves_of(c[3], octant_origin(origin, h, 3), h)
                    + leaves_of(c[4], octant_origin(origin, h, 4), h) + leaves_of(c[5], octant_origin(origin, h, 5), h)
                    + leaves_of(c[6], octant_origin(origin, h, 6), h) + leaves_of(c[7], octant_origin(origin, h, 7), h)
            } else {
                Seq::empty()
            }
        },
    }
}

/// The leaves of the first `k` octants of a split node.
spec fn octant_leaves(c: Seq<Node>, origin: IVec3, h: int, k: int) -> Seq<(IVec3, u32, BlockType)>
    decreases k,
{
    if k <= 0 {
        Seq::empty()
    } else {
        octant_leaves(c, origin, h, k - 1) + leaves_of(c[k - 1], octant_origin(origin, h, k - 1), h)
    }
}

/// Whether `v` describes a tree: an object whose member `type` is a
/// string, either the name of the block of a leaf or `null` for a split
/// node, whose member `children` is then an array of eight such objects.
pub open spec fn json_tree_ok(v: JsonValue) -> bool
    decreases v,
{
    match v {
        JsonValue::Object(e) => {
            let ti = key_index(e@, "type"@);
            if 0 <= ti < e.len() {
                match e@[ti].1 {
                    JsonValue::String(t) => if t@ != "null"@ {
                        true
                    } else {
                        let ci = key_index(e@, "children"@);
                        if 0 <= ci < e.len() {
                            match e@[ci].1 {
                                JsonValue::Array(a) => {
                                    &&& a.len() == 8
                                    &&& json_tree_ok(a@[0]) && json_tree_ok(a@[1]) && json_tree_ok(a@[2])
                                        && json_tree_ok(a@[3])
                                    &&& json_tree_ok(a@[4]) && json_tree_ok(a@[5]) && json_tree_ok(a@[6])
                                        && json_tree_ok(a@[7])
                                },
                                _ => false,
                            }
                        } else {
                            false
                        }
                    },
                    _ => false,
                }
            } else {
                false
            }
        },
        _ => false,
    }
}

/// The block that the JSON tree `v`, covering the cube of side `size` at
/// `origin`, holds at `pos`: at an object whose `type` names a block, that
/// block (any name but grass, dirt and stone reads as air); at one whose
/// `type` is `"null"`, the block of the member of `children` for the octant
/// of `pos`; air where `v` describes no tree.
pub open spec fn json_block(v: JsonValue, origin: IVec3, size: int, pos: IVec3) -> BlockType
    decreases v,
{
    match v {
        JsonValue::Object(e) => {
            let ti = key_index(e@, "type"@);
            if 0 <= ti < e.len() {
                match e@[ti].1 {
                    JsonValue::String(t) => if t@ != "null"@ {
                        block_named(t@)
                    } else {
                        let ci = key_index(e@, "children"@);
                        if 0 <= ci < e.len() {
                            match e@[ci].1 {
                                JsonValue::Array(a) => {
                                    let h = size / 2;
                                    let i = octant(origin, h, pos);
                                    if a.len() == 8 && 0 <= i < 8 {
                                        json_block(a@[i], octant_origin(origin, h, i), h, pos)
                                    } else {
                                        BlockType::Air
                                    }
                                },
                                _ => BlockType::Air,
                            }
                        } else {
                            BlockType::Air
                        }
                    },
                    _ => BlockType::Air,
                }
            } else {
                BlockType::Air
            }
        },
        _ => BlockType::Air,
    }
}

/// How deep the JSON tree `v` splits: zero at an object whose `type` names
/// a block, one more than its deepest child at an object whose `type` is
/// `"null"` and whose `children` are eight; zero where `v` describes no
/// tree.
pub open spec fn json_tree_depth(v: JsonValue) -> nat
    decreases v,
{
    match v {
        JsonValue::Object(e) => {
            let ti = key_index(e@, "type"@);
            if 0 <= ti < e.len() {
                match e@[ti].1 {
                    JsonValue::String(t) => if t@ != "null"@ {
                        0
                    } else {
                        let ci = key_index(e@, "children"@);
                        if 0 <= ci < e.len() {
                            match e@[ci].1 {
                                JsonValue::Array(a) => if a.len() == 8 {
                                    1 + max_nat(
                                        max_nat(
                                            max_nat(json_tree_depth(a@[0]), json_tree_depth(a@[1])),
                                            max_nat(json_tree_depth(a@[2]), json_tree_depth(a@[3])),
                                        ),
                                        max_nat(
                                            max_nat(json_tree_depth(a@[4]), json_tree_depth(a@[5])),
                                            max_nat(json_tree_depth(a@[6]), json_tree_depth(a@[7])),
                                        ),
                                    )
                                } else {
                                    0
                                },
                                _ => 0,
                            }
                        } else {
                            0
                        }
                    },
                    _ => 0,
                }
            } else {
                0
            }
        },
        _ => 0,
    }
}

/// `v` describes the tree `n` (in the sense of `json_tree_ok`; a leaf's
/// block is read with `block_named`).
spec fn parses_to(v: JsonValue, n: Node) -> bool
    decreases n,
{
    match v {
        JsonValue::Object(e) => {
            let ti = key_index(e@, "type"@);
            &&& 0 <= ti < e.len()
            &&& match e@[ti].1 {
                JsonValue::String(t) => if t@ != "null"@ {
                    n == Node::Leaf(block_named(t@))
                } else {
                    let ci = key_index(e@, "children"@);
                    &&& 0 <= ci < e.len()
                    &&& match e@[ci].1 {
                        JsonValue::Array(a) => match n {
                            Node::Children(c) => {
                                &&& a.len() == 8
                                &&& c.len() == 8
                                &&& parses_to(a@[0], c@[0]) && parses_to(a@[1], c@[1]) && parses_to(a@[2], c@[2])
                                    && parses_to(a@[3], c@[3])
                                &&& parses_to(a@[4], c@[4]) && parses_to(a@[5], c@[5]) && parses_to(a@[6], c@[6])
                                    && parses_to(a@[7], c@[7])
                            },
                            Node::Leaf(_) => false,
                        },
                        _ => false,
                    }
                },
                _ => false,
            }
        },
        _ => false,
    }
}

/// `v` is the JSON that `to_json` writes for `n`: an object with the
/// members `children` (null for a leaf, else the array of the eight
/// children) and `type` (the block's name for a leaf, else `null`).
spec fn json_exact(v: JsonValue, n: Node) -> bool
    decreases n,
{
    match v {
        JsonValue::Object(e) => {
            &&& e.len() == 2
            &&& e@[0].0@ == "children"@
            &&& e@[1].0@ == "type"@
            &&& match n {
                Node::Leaf(b) => {
                    &&& e@[0].1 is Null
                    &&& e@[1].1 matches JsonValue::String(t) && t@ == block_name(b)
                },
                Node::Children(c) => {
                    &&& e@[1].1 matches JsonValue::String(t) && t@ == "null"@
                    &&& e@[0].1 matches JsonValue::Array(a) && {
                        &&& a.len() == 8
                        &&& c.len() == 8
                        &&& json_exact(a@[0], c@[0]) && json_exact(a@[1], c@[1]) && json_exact(a@[2], c@[2])
                            && json_exact(a@[3], c@[3])
                        &&& json_exact(a@[4], c@[4]) && json_exact(a@[5], c@[5]) && json_exact(a@[6], c@[6])
                            && json_exact(a@[7], c@[7])
                    }
                },
            }
        },
        _ => false,
    }
}

/// The JSON document that `to_json` writes for `n`.
spec fn node_doc(n: Node) -> JsonView
    decreases n,
{
    match n {
        Node::Leaf(b) => JsonView::Object(
            seq![("children"@, JsonView::Null), ("type"@, JsonView::String(block_name(b)))],
        ),
        Node::Children(c) => if c.len() == 8 {
            JsonView::Object(
                seq![
                    ("children"@, JsonView::Array(seq![
                        node_doc(c@[0]), node_doc(c@[1]), node_doc(c@[2]), node_doc(c@[3]),
                        node_doc(c@[4]), node_doc(c@[5]), node_doc(c@[6]), node_doc(c@[7]),
                    ])),
                    ("type"@, JsonView::String("null"@)),
                ],
            )
        } else {
            JsonView::Null
        },
    }
}

/// Two trees of the same shape with the same blocks in their leaves.
spec fn same_tree(n: Node, m: Node) -> bool
    decreases n,
{
    match n {
        Node::Leaf(a) => m == Node::Leaf(a),
        Node::Children(c) => match m {
            Node::Children(d) => {
                &&& c.len() == 8
                &&& d.len() == 8
                &&& same_tree(c@[0], d@[0]) && same_tree(c@[1], d@[1]) && same_tree(c@[2], d@[2])
                    && same_tree(c@[3], d@[3])
                &&& same_tree(c@[4], d@[4]) && same_tree(c@[5], d@[5]) && same_tree(c@[6], d@[6])
                    && same_tree(c@[7], d@[7])
            },
            Node::Leaf(_) => false,
        },
    }
}

/// `after` is what writing `block` at `pos` leaves of `before`: the same
/// side, `block` at `pos` and at every position of its cell, and every other
/// position unchanged; where the side is a power of two (every cube that
/// `new` builds) the cell of a position of the cube is that position alone,
/// so no other position of the cube changes.
pub open spec fn written(before: Octree, after: Octree, pos: IVec3, block: BlockType) -> bool {
    &&& after.side() == before.side()
    &&& after.block(pos) == block
    &&& forall|q: IVec3|
        #[trigger] after.block(q) == if same_cell(IVec3 { x: 0, y: 0, z: 0 }, before.side() as int, pos, q) {
            block
        } else {
            before.block(q)
        }
    &&& is_pow2(before.side() as int) ==> forall|q: IVec3|
        in_cube(before.side(), q) && q != pos ==> #[trigger] after.block(q) == before.block(q)
}

/// `after` is what moving the block at `pos` to `new_pos` leaves of
/// `before`: the same side, the block of `pos` at `new_pos` and through its
/// cell, air through the rest of the cell of `pos`, every other position
/// unchanged; where the side is a power of two, that is air at `pos`
/// (unless the two are one position) and every other position of the cube
/// unchanged.
pub open spec fn moved(before: Octree, after: Octree, pos: IVec3, new_pos: IVec3) -> bool {
    &&& after.side() == before.side()
    &&& after.block(new_pos) == before.block(pos)
    &&& forall|q: IVec3|
        #[trigger] after.block(q) == if same_cell(IVec3 { x: 0, y: 0, z: 0 }, before.side() as int, new_pos, q) {
            before.block(pos)
        } else if same_cell(IVec3 { x: 0, y: 0, z: 0 }, before.side() as int, pos, q) {
            BlockType::Air
        } else {
            before.block(q)
        }
    &&& is_pow2(before.side() as int) && pos != new_pos ==> after.block(pos) == BlockType::Air
    &&& is_pow2(before.side() as int) ==> forall|q: IVec3|
        in_cube(before.side(), q) && q != pos && q != new_pos ==> #[trigger] after.block(q) == before.block(q)
}

impl Octree {
    #[verifier::type_invariant]
    spec fn inv(self) -> bool {
        node_wf(self.root)
    }

    /// The side of the cube.
    pub closed spec fn side(&self) -> u32 {
        self.size
    }

    /// The block at `pos`, for a position inside the cube.
    pub closed spec fn block(&self, pos: IVec3) -> BlockType {
        lookup(self.root, IVec3 { x: 0, y: 0, z: 0 }, self.size as int, pos)
    }

    /// The uniform cubes the tree is made of, in the order `visit_leaves`
    /// meets them.
    pub closed spec fn leaf_cubes(&self) -> Seq<(IVec3, u32, BlockType)> {
        leaves_of(self.root, IVec3 { x: 0, y: 0, z: 0 }, self.size as int)
    }

    /// `v` is the JSON that `to_json` writes for this tree: for each node an
    /// object with the members `children` (null for a leaf, the array of the
    /// eight children otherwise) and `type` (the name of a leaf's block,
    /// `null` otherwise).
    pub closed spec fn json_form(&self, v: JsonValue) -> bool {
        json_exact(v, self.root)
    }

    /// The JSON document that `to_json` writes for this tree (see
    /// `json_form`).
    pub closed spec fn json_doc(&self) -> JsonView {
        node_doc(self.root)
    }

    /// The number of split nodes on the longest path from the root down to
    /// a leaf: zero for a tree that is one leaf.
    pub closed spec fn depth(&self) -> nat {
        node_depth(self.root)
    }

    /// This tree is the one that `v` describes (see `json_tree_ok`).
    pub closed spec fn parsed_from(&self, v: JsonValue) -> bool {
        parses_to(v, self.root)
    }

    /// No split node of the tree has eight equal leaves as children: the
    /// tree is as small as its blocks allow.
    pub closed spec fn is_compact(&self) -> bool {
        compact(self.root)
    }

    /// The side is a power of two and every split node covers a cube of at
    /// least two voxels a side: the form that `new` gives and that every
    /// write keeps.
    pub closed spec fn is_shaped(&self) -> bool {
        is_pow2(self.size as int) && shaped(self.root, self.size as int)
    }

    fn is_power_of_two(size: u32) -> (r: bool)
        ensures
            r == is_pow2(size as int),
    {
        proof {
            lemma_pow2_bits(size);
        }
        size != 0 && (size & (size - 1)) == 0
    }

    fn contains(&self, pos: IVec3) -> (r: bool)
        ensures
            r == in_cube(self.size, pos),
    {
        if self.size > 2147483647u32 {
            // a side beyond `i32::MAX` wraps to a negative `i32`: nothing fits
            return false;
        }
        let size = self.size as i32;
        pos.x >= 0 && pos.y >= 0 && pos.z >= 0 && pos.x < size && pos.y < size && pos.z < size
    }

    fn child_index(origin: IVec3, half: u32, pos: IVec3) -> (r: usize)
        requires
            half <= i32::MAX,
            origin.x + half <= i32::MAX,
            origin.y + half <= i32::MAX,
            origin.z + half <= i32::MAX,
        ensures
            r == octant(origin, half as int, pos),
            r < 8,
            half > 0 && origin.x + 2 * half <= i32::MAX + 1 && origin.y + 2 * half <= i32::MAX + 1 && origin.z + 2
                * half <= i32::MAX + 1 && in_region(origin, 2 * half, pos) ==> in_region(
                octant_origin(origin, half as int, r as int),
                half as int,
                pos,
            ),
    {
        proof {
            if half > 0 && origin.x + 2 * half <= i32::MAX + 1 && origin.y + 2 * half <= i32::MAX + 1 && origin.z + 2
                * half <= i32::MAX + 1 {
                law_octants(origin, half as int, pos, 0);
            }
        }
        let half = half as i32;
        let x_bit: usize = if pos.x < origin.x + half { 0 } else { 1 };
        let y_bit: usize = if pos.y < origin.y + half { 0 } else { 1 };
        let z_bit: usize = if pos.z < origin.z + half { 0 } else { 1 };
        x_bit + y_bit * 2 + z_bit * 4
    }

    fn child_origin(origin: IVec3, half: u32, index: usize) -> (r: IVec3)
        requires
            half <= i32::MAX,
            origin.x + half <= i32::MAX,
            origin.y + half <= i32::MAX,
            origin.z + half <= i32::MAX,
            index < 8,
        ensures
            r == octant_origin(origin, half as int, index as int),
            fits(origin, 2 * half as int) ==> fits(r, half as int),
            half > 0 && origin.x + 2 * half <= i32::MAX + 1 && origin.y + 2 * half <= i32::MAX + 1 && origin.z + 2
                * half <= i32::MAX + 1 ==> octant(origin, half as int, r) == index,
    {
        proof {
            if half > 0 && origin.x + 2 * half <= i32::MAX + 1 && origin.y + 2 * half <= i32::MAX + 1 && origin.z + 2
                * half <= i32::MAX + 1 {
                law_octants(origin, half as int, origin, index as int);
            }
        }
        proof {
            lemma_index_bits(index);
        }
        let half = half as i32;
        let x = if (index & 1) == 0 {
            origin.x
        } else {
            origin.x + half
        };
        let y = if (index & 2) == 0 {
            origin.y
        } else {
            origin.y + half
        };
        let z = if (index & 4) == 0 {
            origin.z
        } else {
            origin.z + half
        };
        IVec3 { x, y, z }
    }

    fn get_rec(node: &Node, origin: IVec3, size: u32, pos: IVec3) -> (r: BlockType)
        requires
            node_wf(*node),
            fits(origin, size as int),
        ensures
            r == lookup(*node, origin, size as int, pos),
        decreases node,
    {
        match node {
            Node::Leaf(block) => *block,
            Node::Children(children) => {
                let half = size / 2;
                let index = Self::child_index(origin, half, pos);
                let next_origin = Self::child_origin(origin, half, index);
                proof {
                    lemma_child_wf(*children, index as int);
                }
                Self::get_rec(&children[index], next_origin, half, pos)
            },
        }
    }
}

impl Octree {
    fn subdivide(node: &mut Node)
        requires
            node_wf(*old(node)),
        ensures
            node_wf(*final(node)),
            *final(node) is Children,
            forall|origin: IVec3, size: int, p: IVec3|
                #[trigger] lookup(*final(node), origin, size, p) == lookup(*old(node), origin, size, p),
            *old(node) is Children ==> *final(node) == *old(node),
            *old(node) matches Node::Leaf(b) ==> *final(node) matches Node::Children(c) && c@ == seq![
                Node::Leaf(b), Node::Leaf(b), Node::Leaf(b), Node::Leaf(b),
                Node::Leaf(b), Node::Leaf(b), Node::Leaf(b), Node::Leaf(b)],
    {
        let fill = match *node {
            Node::Leaf(block) => block,
            Node::Children(_) => {
                return;
            },
        };
        let mut children: Vec<Node> = Vec::new();
        children.push(Node::Leaf(fill));
        children.push(Node::Leaf(fill));
        children.push(Node::Leaf(fill));
        children.push(Node::Leaf(fill));
        children.push(Node::Leaf(fill));
        children.push(Node::Leaf(fill));
        children.push(Node::Leaf(fill));
        children.push(Node::Leaf(fill));
        let ghost leaves = children@;
        assert(leaves =~= seq![
            Node::Leaf(fill), Node::Leaf(fill), Node::Leaf(fill), Node::Leaf(fill),
            Node::Leaf(fill), Node::Leaf(fill), Node::Leaf(fill), Node::Leaf(fill)]);
        *node = Node::Children(children);
        proof {
            assert forall|origin: IVec3, size: int, p: IVec3|
                #[trigger] lookup(*node, origin, size, p) == fill by {
                let i = octant(origin, size / 2, p);
                assert(0 <= i < 8);
                assert(leaves[i] == Node::Leaf(fill));
                reveal_with_fuel(lookup, 2);
            }
        }
    }

    fn try_merge(node: &mut Node)
        requires
            node_wf(*old(node)),
        ensures
            node_wf(*final(node)),
            forall|origin: IVec3, size: int, p: IVec3|
                #[trigger] lookup(*final(node), origin, size, p) == lookup(*old(node), origin, size, p),
            *final(node) is Children ==> *final(node) == *old(node),
            *final(node) matches Node::Children(c) ==> !uniform_leaves(c@),
            *final(node) is Leaf ==> (*old(node) is Leaf ==> *final(node) == *old(node)),
            *old(node) is Leaf ==> *final(node) == *old(node),
            *old(node) matches Node::Children(c) ==> (uniform_leaves(c@) ==> *final(node) == c@[0]) && (
            !uniform_leaves(c@) ==> *final(node) == *old(node)),
    {
        let first_block = match &*node {
            Node::Leaf(_) => {
                return;
            },
            Node::Children(children) => match &children[0] {
                Node::Leaf(block) => *block,
                Node::Children(_) => {
                    return;
                },
            },
        };
        let ghost c = kids(*node);
        let mut same = true;
        match &*node {
            Node::Leaf(_) => {
                same = false;
            },
            Node::Children(children) => {
                proof {
                    lemma_child_wf(*children, 0);
                }
                let mut i: usize = 1;
                while i < 8
                    invariant
                        1 <= i <= 8,
                        children.len() == 8,
                        children@ == c,
                        c[0] == Node::Leaf(first_block),
                        same ==> forall|j: int| 1 <= j < i ==> #[trigger] c[j] == c[0],
                        !same ==> !uniform_leaves(c),
                    decreases 8 - i,
                {
                    match &children[i] {
                        Node::Leaf(block) if *block == first_block => {},
                        _ => {
                            same = false;
                        },
                    }
                    i += 1;
                }
            },
        }
        if same {
            proof {
                assert forall|origin: IVec3, size: int, p: IVec3|
                    #[trigger] lookup(*node, origin, size, p) == first_block by {
                    let k = octant(origin, size / 2, p);
                    assert(0 <= k < 8);
                    assert(c[k] == c[0]);
                    reveal_with_fuel(lookup, 2);
                }
            }
            *node = Node::Leaf(first_block);
        }
    }

    fn set_rec(node: &mut Node, origin: IVec3, size: u32, pos: IVec3, block: BlockType)
        requires
            node_wf(*old(node)),
            fits(origin, size as int),
            size >= 1,
        ensures
            node_wf(*final(node)),
            lookup(*final(node), origin, size as int, pos) == block,
            forall|q: IVec3|
                #[trigger] lookup(*final(node), origin, size as int, q) == if same_cell(origin, size as int, pos, q) {
                    block
                } else {
                    lookup(*old(node), origin, size as int, q)
                },
            compact(*old(node)) ==> compact(*final(node)),
            is_pow2(size as int) && shaped(*old(node), size as int) ==> shaped(*final(node), size as int),
        decreases size,
    {
        if size == 1 {
            *node = Node::Leaf(block);
            return;
        }
        match *node {
            Node::Leaf(current) => {
                if current == block {
                    return;
                }
            },
            Node::Children(_) => {},
        }
        let ghost before = *node;
        Self::subdivide(node);
        let ghost split = *node;
        let half = size / 2;
        let index = Self::child_index(origin, half, pos);
        let next_origin = Self::child_origin(origin, half, index);
        match node {
            Node::Leaf(_) => {
                proof {
                    assert(false);
                }
            },
            Node::Children(children) => {
                proof {
                    lemma_child_wf(*children, index as int);
                }
                Self::set_rec(&mut children[index], next_origin, half, pos, block);
            },
        }
        let ghost merged_from = *node;
        Self::try_merge(node);
        proof {
            lemma_set_step(before, split, merged_from, *node, origin, size, pos, block, index as int);
        }
    }

    fn visit_leaves_rec(node: &Node, origin: IVec3, size: u32, out: &mut Vec<(IVec3, u32, BlockType)>)
        requires
            node_wf(*node),
            fits(origin, size as int),
        ensures
            final(out)@ == old(out)@ + leaves_of(*node, origin, size as int),
        decreases node,
    {
        match node {
            Node::Leaf(block) => {
                out.push((origin, size, *block));
                proof {
                    assert(final(out)@ =~= old(out)@ + leaves_of(*node, origin, size as int));
                }
            },
            Node::Children(children) => {
                let half = size / 2;
                let ghost start = out@;
                let mut i: usize = 0;
                while i < 8
                    invariant
                        0 <= i <= 8,
                        node_wf(*node),
                        *node == Node::Children(*children),
                        fits(origin, size as int),
                        half == size / 2,
                        out@ == start + octant_leaves(children@, origin, half as int, i as int),
                    decreases 8 - i,
                {
                    let next_origin = Self::child_origin(origin, half, i);
                    proof {
                        lemma_child_wf(*children, i as int);
                    }
                    Self::visit_leaves_rec(&children[i], next_origin, half, out);
                    proof {
                        assert(out@ =~= start + octant_leaves(children@, origin, half as int, i + 1));
                    }
                    i += 1;
                }
                proof {
                    lemma_child_wf(*children, 0);
                    reveal_with_fuel(octant_leaves, 9);
                    assert(out@ =~= start + leaves_of(*node, origin, size as int));
                }
            },
        }
    }

    fn move_rec(node: &mut Node, origin: IVec3, size: u32, pos: IVec3, new_pos: IVec3) -> (r: bool)
        requires
            node_wf(*old(node)),
            fits(origin, size as int),
            size >= 1,
        ensures
            r,
            node_wf(*final(node)),
            lookup(*final(node), origin, size as int, new_pos) == lookup(*old(node), origin, size as int, pos),
            forall|q: IVec3|
                #[trigger] lookup(*final(node), origin, size as int, q) == if same_cell(origin, size as int, new_pos, q) {
                    lookup(*old(node), origin, size as int, pos)
                } else if same_cell(origin, size as int, pos, q) {
                    BlockType::Air
                } else {
                    lookup(*old(node), origin, size as int, q)
                },
            compact(*old(node)) ==> compact(*final(node)),
            is_pow2(size as int) && shaped(*old(node), size as int) ==> shaped(*final(node), size as int),
    {
        let block = Self::get_rec(node, origin, size, pos);
        let ghost start = *node;
        Self::set_rec(node, origin, size, pos, BlockType::Air);
        let ghost cleared = *node;
        Self::set_rec(node, origin, size, new_pos, block);
        proof {
            assert forall|q: IVec3|
                #[trigger] lookup(*node, origin, size as int, q) == if same_cell(origin, size as int, new_pos, q) {
                    lookup(start, origin, size as int, pos)
                } else if same_cell(origin, size as int, pos, q) {
                    BlockType::Air
                } else {
                    lookup(start, origin, size as int, q)
                } by {
                assert(lookup(*node, origin, size as int, q) == if same_cell(origin, size as int, new_pos, q) {
                    block
                } else {
                    lookup(cleared, origin, size as int, q)
                });
                assert(lookup(cleared, origin, size as int, q) == if same_cell(origin, size as int, pos, q) {
                    BlockType::Air
                } else {
                    lookup(start, origin, size as int, q)
                });
            }
        }
        true
    }
}

impl Octree {
    /// A cube of side `size` filled with `fill`; the side must be a power of two.
    pub fn new(size: u32, fill: BlockType) -> (r: Result<Self, OctreeError>)
        ensures
            is_pow2(size as int) <==> r is Ok,
            !is_pow2(size as int) ==> r == Err::<Self, OctreeError>(OctreeError::InvalidSize),
            r matches Ok(t) ==> t.side() == size && t.is_compact() && t.is_shaped() && forall|p: IVec3|
                #[trigger] t.block(p) == fill,
            r matches Ok(t) ==> t.leaf_cubes() == seq![(IVec3 { x: 0, y: 0, z: 0 }, size, fill)] && t.depth() == 0,
    {
        if !Self::is_power_of_two(size) {
            return Err(OctreeError::InvalidSize);
        }
        Ok(Self { size: size, root: Node::Leaf(fill) })
    }

    /// The side of the cube.
    pub fn size(&self) -> (r: u32)
        ensures
            r == self.side(),
    {
        self.size
    }

    /// The block at `pos`, or `OutOfBounds` outside the cube.
    pub fn get(&self, pos: IVec3) -> (r: Result<BlockType, OctreeError>)
        ensures
            in_cube(self.side(), pos) ==> r == Ok::<BlockType, OctreeError>(self.block(pos)),
            !in_cube(self.side(), pos) ==> r == Err::<BlockType, OctreeError>(OctreeError::OutOfBounds),
    {
        proof {
            use_type_invariant(self);
        }
        let root_origin = IVec3 { x: 0, y: 0, z: 0 };
        if !self.contains(pos) {
            return Err(OctreeError::OutOfBounds);
        }
        Ok(Self::get_rec(&self.root, root_origin, self.size, pos))
    }
}

/// Each child of a compact split node is compact.
proof fn lemma_child_compact(c: Vec<Node>, i: int)
    requires
        compact(Node::Children(c)),
        0 <= i < 8,
    ensures
        compact(c[i]),
{
    if i == 0 {
    } else if i == 1 {
    } else if i == 2 {
    } else if i == 3 {
    } else if i == 4 {
    } else if i == 5 {
    } else if i == 6 {
    } else {
    }
}

/// A point of a cube whose side is an even number lies in the octant that
/// `octant` names.
proof fn lemma_octant_region(origin: IVec3, size: int, q: IVec3)
    requires
        size >= 2,
        size % 2 == 0,
        fits(origin, size),
        in_region(origin, size, q),
    ensures
        0 <= octant(origin, size / 2, q) < 8,
        in_region(octant_origin(origin, size / 2, octant(origin, size / 2, q)), size / 2, q),
        fits(octant_origin(origin, size / 2, octant(origin, size / 2, q)), size / 2),
{
}

/// One step of `set_rec` below its leaves: from the node before the write,
/// through the split node and the node with its child rewritten, to the node
/// after merging.
proof fn lemma_set_step(
    before: Node,
    split: Node,
    mid: Node,
    after: Node,
    origin: IVec3,
    size: u32,
    pos: IVec3,
    block: BlockType,
    index: int,
)
    requires
        node_wf(before),
        fits(origin, size as int),
        size >= 2,
        node_wf(split),
        forall|o: IVec3, s: int, p: IVec3| #[trigger] lookup(split, o, s, p) == lookup(before, o, s, p),
        before is Children ==> split == before,
        before matches Node::Leaf(b) ==> split matches Node::Children(c) && c@ == seq![
            Node::Leaf(b), Node::Leaf(b), Node::Leaf(b), Node::Leaf(b),
            Node::Leaf(b), Node::Leaf(b), Node::Leaf(b), Node::Leaf(b)],
        index == octant(origin, (size / 2) as int, pos),
        split matches Node::Children(c) && mid matches Node::Children(c2) && c2@ == c@.update(index, c2@[index])
            && node_wf(c2@[index])
            && lookup(c2@[index], octant_origin(origin, (size / 2) as int, index), (size / 2) as int, pos) == block
            && (forall|q: IVec3|
                #[trigger] lookup(c2@[index], octant_origin(origin, (size / 2) as int, index), (size / 2) as int, q)
                    == if same_cell(octant_origin(origin, (size / 2) as int, index), (size / 2) as int, pos, q) {
                    block
                } else {
                    lookup(c@[index], octant_origin(origin, (size / 2) as int, index), (size / 2) as int, q)
                })
            && (compact(c@[index]) ==> compact(c2@[index]))
            && (is_pow2((size / 2) as int) && shaped(c@[index], (size / 2) as int) ==> shaped(
                c2@[index],
                (size / 2) as int,
            )),
        node_wf(after),
        forall|o: IVec3, s: int, p: IVec3| #[trigger] lookup(after, o, s, p) == lookup(mid, o, s, p),
        after is Children ==> after == mid,
        after matches Node::Children(c3) ==> !uniform_leaves(c3@),
    ensures
        lookup(after, origin, size as int, pos) == block,
        forall|q: IVec3|
            #[trigger] lookup(after, origin, size as int, q) == if same_cell(origin, size as int, pos, q) {
                block
            } else {
                lookup(before, origin, size as int, q)
            },
        compact(before) ==> compact(after),
        is_pow2(size as int) && shaped(before, size as int) ==> shaped(after, size as int),
{
    let half = (size / 2) as int;
    assert(half == size as int / 2);
    if let (Node::Children(c), Node::Children(c2)) = (split, mid) {
        lemma_child_wf(c, index);
        assert(lookup(mid, origin, size as int, pos) == block);
        assert forall|q: IVec3|
            #[trigger] lookup(after, origin, size as int, q) == if same_cell(origin, size as int, pos, q) {
                block
            } else {
                lookup(before, origin, size as int, q)
            } by {
            let j = octant(origin, half, q);
            assert(0 <= j < 8);
            assert(lookup(after, origin, size as int, q) == lookup(mid, origin, size as int, q));
            assert(lookup(split, origin, size as int, q) == lookup(before, origin, size as int, q));
            assert(lookup(mid, origin, size as int, q) == lookup(c2@[j], octant_origin(origin, half, j), half, q));
            assert(lookup(split, origin, size as int, q) == lookup(c@[j], octant_origin(origin, half, j), half, q));
            if j != index {
                assert(c2@[j] == c@[j]);
            } else {
                let co = octant_origin(origin, half, index);
                assert(lookup(c2@[index], co, half, q) == if same_cell(co, half, pos, q) {
                    block
                } else {
                    lookup(c@[index], co, half, q)
                });
            }
        }
        if compact(before) {
            if before is Leaf {
                assert(compact(c@[index]));
            } else {
                lemma_child_compact(c, index);
            }
            if after is Children {
                assert(!uniform_leaves(c2@));
                if before is Children {
                    lemma_child_compact(c, 0);
                    lemma_child_compact(c, 1);
                    lemma_child_compact(c, 2);
                    lemma_child_compact(c, 3);
                    lemma_child_compact(c, 4);
                    lemma_child_compact(c, 5);
                    lemma_child_compact(c, 6);
                    lemma_child_compact(c, 7);
                }
                assert(compact(c2@[index]));
            }
        }
        if is_pow2(size as int) && shaped(before, size as int) && after is Children {
            assert(size as int % 2 == 0 && is_pow2(half));
            assert forall|j: int| 0 <= j < 8 implies #[trigger] shaped(c2@[j], half) by {
                if before is Children {
                    lemma_child_shaped(c, size as int, j);
                }
                assert(shaped(c@[j], half));
                if j != index {
                    assert(c2@[j] == c@[j]);
                }
            }
            assert(shaped(c2@[0], half) && shaped(c2@[1], half) && shaped(c2@[2], half) && shaped(c2@[3], half));
            assert(shaped(c2@[4], half) && shaped(c2@[5], half) && shaped(c2@[6], half) && shaped(c2@[7], half));
        }
    }
}

/// Each child of a split node of the right form is of the right form for
/// half the side.
proof fn lemma_child_shaped(c: Vec<Node>, size: int, i: int)
    requires
        shaped(Node::Children(c), size),
        0 <= i < 8,
    ensures
        c.len() == 8,
        size >= 2,
        size % 2 == 0,
        shaped(c[i], size / 2),
{
    if i == 0 {
    } else if i == 1 {
    } else if i == 2 {
    } else if i == 3 {
    } else if i == 4 {
    } else if i == 5 {
    } else if i == 6 {
    } else {
    }
}

/// Each child of a well-formed split node is well formed.
proof fn lemma_child_wf(c: Vec<Node>, i: int)
    requires
        node_wf(Node::Children(c)),
        0 <= i < 8,
    ensures
        c.len() == 8,
        node_wf(c[i]),
{
    if i == 0 {
    } else if i == 1 {
    } else if i == 2 {
    } else if i == 3 {
    } else if i == 4 {
    } else if i == 5 {
    } else if i == 6 {
    } else {
    }
}

impl Octree {
    /// Writes `block` at `pos`, or refuses with `OutOfBounds` outside the
    /// cube. The write reaches the cell of `pos` (see `written`); in a cube
    /// whose side is a power of two (every cube that `new` builds) no other
    /// position changes.
    pub fn set(&mut self, pos: IVec3, block: BlockType) -> (r: Result<(), OctreeError>)
        ensures
            final(self).side() == old(self).side(),
            !in_cube(old(self).side(), pos) ==> r == Err::<(), OctreeError>(OctreeError::OutOfBounds)
                && forall|q: IVec3| #[trigger] final(self).block(q) == old(self).block(q),
            in_cube(old(self).side(), pos) ==> r == Ok::<(), OctreeError>(()) && written(
                *old(self),
                *final(self),
                pos,
                block,
            ),
            old(self).is_compact() ==> final(self).is_compact(),
            old(self).is_shaped() ==> final(self).is_shaped(),
            r is Err ==> *final(self) == *old(self),
    {
        proof {
            use_type_invariant(&*self);
        }
        let root_origin = IVec3 { x: 0, y: 0, z: 0 };
        if !self.contains(pos) {
            return Err(OctreeError::OutOfBounds);
        }
        let mut root = Node::Leaf(BlockType::Air);
        std::mem::swap(&mut root, &mut self.root);
        Self::set_rec(&mut root, root_origin, self.size, pos, block);
        self.root = root;
        proof {
            if is_pow2(self.size as int) {
                assert forall|q: IVec3| in_cube(self.size, q) && q != pos implies #[trigger] self.block(q)
                    == old(self).block(q) by {
                    if same_cell(root_origin, self.size as int, pos, q) {
                        lemma_cell_is_voxel(root_origin, self.size as int, pos, q);
                    }
                }
            }
        }
        Ok(())
    }

    /// Empties the voxel at `pos` (writes air there).
    pub fn remove(&mut self, pos: IVec3) -> (r: Result<(), OctreeError>)
        ensures
            final(self).side() == old(self).side(),
            !in_cube(old(self).side(), pos) ==> r == Err::<(), OctreeError>(OctreeError::OutOfBounds)
                && forall|q: IVec3| #[trigger] final(self).block(q) == old(self).block(q),
            in_cube(old(self).side(), pos) ==> r == Ok::<(), OctreeError>(()) && written(
                *old(self),
                *final(self),
                pos,
                BlockType::Air,
            ),
            old(self).is_compact() ==> final(self).is_compact(),
            old(self).is_shaped() ==> final(self).is_shaped(),
            r is Err ==> *final(self) == *old(self),
    {
        self.set(pos, BlockType::Air)
    }

    /// Moves the block at `pos` to `new_pos`, leaving air behind; refuses
    /// with `OutOfBounds` when either position is outside the cube.
    pub fn move_block(&mut self, pos: IVec3, new_pos: IVec3) -> (r: Result<(), OctreeError>)
        ensures
            final(self).side() == old(self).side(),
            !(in_cube(old(self).side(), pos) && in_cube(old(self).side(), new_pos)) ==> r == Err::<
                (),
                OctreeError,
            >(OctreeError::OutOfBounds) && forall|q: IVec3| #[trigger] final(self).block(q) == old(self).block(q),
            in_cube(old(self).side(), pos) && in_cube(old(self).side(), new_pos) ==> r == Ok::<(), OctreeError>(())
                && moved(*old(self), *final(self), pos, new_pos),
            old(self).is_compact() ==> final(self).is_compact(),
            old(self).is_shaped() ==> final(self).is_shaped(),
            r is Err ==> *final(self) == *old(self),
    {
        proof {
            use_type_invariant(&*self);
        }
        let root_origin = IVec3 { x: 0, y: 0, z: 0 };
        if !self.contains(pos) || !self.contains(new_pos) {
            return Err(OctreeError::OutOfBounds);
        }
        let mut root = Node::Leaf(BlockType::Air);
        std::mem::swap(&mut root, &mut self.root);
        Self::move_rec(&mut root, root_origin, self.size, pos, new_pos);
        self.root = root;
        proof {
            if is_pow2(self.size as int) {
                assert forall|q: IVec3| in_cube(self.size, q) && (q != pos || q != new_pos) implies #[trigger] self.block(
                    q,
                ) == if q == new_pos {
                    old(self).block(pos)
                } else if q == pos {
                    BlockType::Air
                } else {
                    old(self).block(q)
                } by {
                    lemma_cell_of_itself(root_origin, self.size as int, q);
                    if same_cell(root_origin, self.size as int, new_pos, q) {
                        lemma_cell_is_voxel(root_origin, self.size as int, new_pos, q);
                    }
                    if same_cell(root_origin, self.size as int, pos, q) {
                        lemma_cell_is_voxel(root_origin, self.size as int, pos, q);
                    }
                }
            }
        }
        Ok(())
    }

    /// Writes `block` at every position of the box with corners `min` and
    /// `max` (both included); refuses with `OutOfBounds` when the box is
    /// empty on some axis or a corner lies outside the cube. Each write
    /// reaches the cell of its position (see `written`): in a cube whose side
    /// is a power of two, the box and nothing else.
    pub fn fill_region(&mut self, min: IVec3, max: IVec3, block: BlockType) -> (r: Result<(), OctreeError>)
        ensures
            final(self).side() == old(self).side(),
            r is Err <==> !region_ok(old(self).side(), min, max),
            r is Err ==> r == Err::<(), OctreeError>(OctreeError::OutOfBounds)
                && forall|q: IVec3| #[trigger] final(self).block(q) == old(self).block(q),
            r is Ok ==> forall|q: IVec3|
                #[trigger] final(self).block(q) == if exists|p: IVec3|
                    in_box(min, max, p) && #[trigger] same_cell(
                        IVec3 { x: 0, y: 0, z: 0 },
                        old(self).side() as int,
                        p,
                        q,
                    ) {
                    block
                } else {
                    old(self).block(q)
                },
            r is Ok && is_pow2(old(self).side() as int) ==> forall|q: IVec3|
                in_cube(old(self).side(), q) ==> #[trigger] final(self).block(q) == (if in_box(min, max, q) {
                    block
                } else {
                    old(self).block(q)
                }),
            old(self).is_compact() ==> final(self).is_compact(),
            old(self).is_shaped() ==> final(self).is_shaped(),
            r is Err ==> *final(self) == *old(self),
    {
        if min.x > max.x || min.y > max.y || min.z > max.z {
            return Err(OctreeError::OutOfBounds);
        }
        if !self.contains(min) || !self.contains(max) {
            return Err(OctreeError::OutOfBounds);
        }
        let ghost start = *self;
        let ghost o = IVec3 { x: 0, y: 0, z: 0 };
        let ghost side = self.size as int;
        let mut z = min.z;
        while z <= max.z
            invariant
                region_ok(start.side(), min, max),
                min.z <= z <= max.z + 1,
                self.side() == start.side(),
                side == start.side(),
                o == (IVec3 { x: 0, y: 0, z: 0 }),
                start.is_compact() ==> self.is_compact(),
                start.is_shaped() ==> self.is_shaped(),
                forall|q: IVec3|
                    #[trigger] self.block(q) == if exists|p: IVec3|
                        in_box(min, max, p) && p.z < z && #[trigger] same_cell(o, side, p, q) {
                        block
                    } else {
                        start.block(q)
                    },
            decreases max.z + 1 - z,
        {
            let mut y = min.y;
            while y <= max.y
                invariant
                    region_ok(start.side(), min, max),
                    min.z <= z <= max.z,
                    min.y <= y <= max.y + 1,
                    self.side() == start.side(),
                    side == start.side(),
                    o == (IVec3 { x: 0, y: 0, z: 0 }),
                    start.is_compact() ==> self.is_compact(),
                    start.is_shaped() ==> self.is_shaped(),
                    forall|q: IVec3|
                        #[trigger] self.block(q) == if exists|p: IVec3|
                            in_box(min, max, p) && (p.z < z || (p.z == z && p.y < y)) && #[trigger] same_cell(
                                o,
                                side,
                                p,
                                q,
                            ) {
                            block
                        } else {
                            start.block(q)
                        },
                decreases max.y + 1 - y,
            {
                let mut x = min.x;
                while x <= max.x
                    invariant
                        region_ok(start.side(), min, max),
                        min.z <= z <= max.z,
                        min.y <= y <= max.y,
                        min.x <= x <= max.x + 1,
                        self.side() == start.side(),
                        side == start.side(),
                        o == (IVec3 { x: 0, y: 0, z: 0 }),
                        start.is_compact() ==> self.is_compact(),
                        start.is_shaped() ==> self.is_shaped(),
                        forall|q: IVec3|
                            #[trigger] self.block(q) == if exists|p: IVec3|
                                in_box(min, max, p) && (p.z < z || (p.z == z && p.y < y) || (p.z == z && p.y == y
                                    && p.x < x)) && #[trigger] same_cell(o, side, p, q) {
                                block
                            } else {
                                start.block(q)
                            },
                    decreases max.x + 1 - x,
                {
                    let r = self.set(IVec3 { x, y, z }, block);
                    if r.is_err() {
                        proof {
                            assert(false);
                        }
                        return r;
                    }
                    x += 1;
                }
                y += 1;
            }
            z += 1;
        }
        proof {
            if is_pow2(side) {
                assert forall|q: IVec3| in_cube(start.side(), q) implies #[trigger] self.block(q) == (if in_box(
                    min,
                    max,
                    q,
                ) {
                    block
                } else {
                    start.block(q)
                }) by {
                    lemma_cell_of_itself(o, side, q);
                    if exists|p: IVec3| in_box(min, max, p) && #[trigger] same_cell(o, side, p, q) {
                        let p = choose|p: IVec3| in_box(min, max, p) && #[trigger] same_cell(o, side, p, q);
                        lemma_cell_is_voxel(o, side, p, q);
                    }
                }
            }
        }
        Ok(())
    }

    /// The uniform cubes the tree is made of, as `(corner, side, block)`, in
    /// the order of a depth-first walk through octants 0 to 7.
    pub fn leaves(&self) -> (r: Vec<(IVec3, u32, BlockType)>)
        requires
            self.side() <= 0x8000_0000 || self.depth() == 0,
        ensures
            r@ == self.leaf_cubes(),
            self.is_compact() && self.is_shaped() ==> r@ == canonical_leaves(
                |p: IVec3| self.block(p),
                IVec3 { x: 0, y: 0, z: 0 },
                self.side() as int,
            ),
    {
        proof {
            use_type_invariant(self);
            if self.is_compact() && self.is_shaped() {
                law_merged_form(*self);
            }
        }
        let mut out: Vec<(IVec3, u32, BlockType)> = Vec::new();
        let root_origin = IVec3 { x: 0, y: 0, z: 0 };
        match &self.root {
            Node::Leaf(block) => {
                out.push((root_origin, self.size, *block));
            },
            Node::Children(_) => {
                Self::visit_leaves_rec(&self.root, root_origin, self.size, &mut out);
            },
        }
        proof {
            assert(out@ =~= self.leaf_cubes());
        }
        out
    }

    /// Calls `f` with the corner, side and block of each uniform cube of the
    /// tree, in the order of `leaves`.
    pub fn visit_leaves<F>(&self, mut f: F)
        where
            F: FnMut(IVec3, u32, BlockType),
        requires
            self.side() <= 0x8000_0000 || self.depth() == 0,
            forall|corner: IVec3, side: u32, block: BlockType| #[trigger] call_requires(f, (corner, side, block)),
        ensures
            forall|i: int|
                0 <= i < self.leaf_cubes().len() ==> #[trigger] call_ensures(
                    f,
                    (self.leaf_cubes()[i].0, self.leaf_cubes()[i].1, self.leaf_cubes()[i].2),
                    (),
                ),
    {
        let ghost f0 = f;
        let leaves = self.leaves();
        let mut i: usize = 0;
        while i < leaves.len()
            invariant
                f == f0,
                leaves@ == self.leaf_cubes(),
                0 <= i <= leaves.len(),
                forall|corner: IVec3, side: u32, block: BlockType| #[trigger] call_requires(f, (corner, side, block)),
                forall|j: int|
                    0 <= j < i ==> #[trigger] call_ensures(f, (leaves@[j].0, leaves@[j].1, leaves@[j].2), ()),
            decreases leaves.len() - i,
        {
            let (corner, side, block) = leaves[i];
            f(corner, side, block);
            i += 1;
        }
    }

    /// Fills the whole cube with `fill`: one leaf.
    pub fn clear(&mut self, fill: BlockType)
        ensures
            final(self).side() == old(self).side(),
            forall|q: IVec3| #[trigger] final(self).block(q) == fill,
            final(self).is_compact(),
            old(self).is_shaped() ==> final(self).is_shaped(),
            final(self).leaf_cubes() == seq![(IVec3 { x: 0, y: 0, z: 0 }, old(self).side(), fill)],
            final(self).depth() == 0,
    {
        self.root = Node::Leaf(fill);
    }
}

impl Octree {
    fn browse_rec(node: &Node) -> (r: JsonValue)
        requires
            node_wf(*node),
        ensures
            json_exact(r, *node),
        decreases node,
    {
        match node {
            Node::Leaf(e) => {
                let mut entries: Vec<(String, JsonValue)> = Vec::new();
                entries.push((String::from_str("children"), JsonValue::Null));
                entries.push((String::from_str("type"), JsonValue::String(String::from_str(e.name()))));
                JsonValue::Object(entries)
            },
            Node::Children(children) => {
                let mut kids_json: Vec<JsonValue> = Vec::new();
                let mut i: usize = 0;
                while i < 8
                    invariant
                        0 <= i <= 8,
                        node_wf(*node),
                        *node == Node::Children(*children),
                        kids_json.len() == i,
                        forall|j: int| 0 <= j < i ==> #[trigger] json_exact(kids_json@[j], children@[j]),
                    decreases 8 - i,
                {
                    proof {
                        lemma_child_wf(*children, i as int);
                    }
                    let child = Self::browse_rec(&children[i]);
                    kids_json.push(child);
                    i += 1;
                }
                proof {
                    lemma_child_wf(*children, 0);
                    assert(json_exact(kids_json@[0], children@[0]) && json_exact(kids_json@[1], children@[1])
                        && json_exact(kids_json@[2], children@[2]) && json_exact(kids_json@[3], children@[3])
                        && json_exact(kids_json@[4], children@[4]) && json_exact(kids_json@[5], children@[5])
                        && json_exact(kids_json@[6], children@[6]) && json_exact(kids_json@[7], children@[7]));
                }
                let mut entries: Vec<(String, JsonValue)> = Vec::new();
                entries.push((String::from_str("children"), JsonValue::Array(kids_json)));
                entries.push((String::from_str("type"), JsonValue::String(String::from_str("null"))));
                JsonValue::Object(entries)
            },
        }
    }

    fn from_json_rec(v: &JsonValue) -> (r: Option<Node>)
        ensures
            r is Some <==> json_tree_ok(*v),
            r matches Some(n) ==> parses_to(*v, n) && node_wf(n),
        decreases v,
    {
        let type_value = match v.get("type") {
            Some(t) => t,
            None => {
                return None;
            },
        };
        let node_type = match type_value {
            JsonValue::String(t) => t,
            _ => {
                return None;
            },
        };
        if !(*node_type == String::from_str("null")) {
            let block = BlockType::from_name(node_type);
            return Some(Node::Leaf(block));
        }
        let children_json = match v.get("children") {
            Some(JsonValue::Array(a)) => a,
            _ => {
                return None;
            },
        };
        if children_json.len() != 8 {
            return None;
        }
        let mut children_vec: Vec<Node> = Vec::new();
        let mut i: usize = 0;
        while i < 8
            invariant
                0 <= i <= 8,
                children_json.len() == 8,
                json_get(*v, "children"@) == Some(JsonValue::Array(*children_json)),
                json_tree_ok(*v) == (json_tree_ok(children_json@[0]) && json_tree_ok(children_json@[1])
                    && json_tree_ok(children_json@[2]) && json_tree_ok(children_json@[3]) && json_tree_ok(
                    children_json@[4],
                ) && json_tree_ok(children_json@[5]) && json_tree_ok(children_json@[6]) && json_tree_ok(
                    children_json@[7],
                )),
                children_vec.len() == i,
                forall|j: int| 0 <= j < i ==> #[trigger] json_tree_ok(children_json@[j]),
                forall|j: int| 0 <= j < i ==> #[trigger] parses_to(children_json@[j], children_vec@[j]),
                forall|j: int| 0 <= j < i ==> #[trigger] node_wf(children_vec@[j]),
            decreases 8 - i,
        {
            proof {
                lemma_get_decreases(*v, "children"@, i as int);
            }
            match Self::from_json_rec(&children_json[i]) {
                Some(child) => {
                    children_vec.push(child);
                },
                None => {
                    return None;
                },
            }
            i += 1;
        }
        proof {
            assert(json_tree_ok(children_json@[0]) && parses_to(children_json@[0], children_vec@[0]) && node_wf(children_vec@[0]));
            assert(json_tree_ok(children_json@[1]) && parses_to(children_json@[1], children_vec@[1]) && node_wf(children_vec@[1]));
            assert(json_tree_ok(children_json@[2]) && parses_to(children_json@[2], children_vec@[2]) && node_wf(children_vec@[2]));
            assert(json_tree_ok(children_json@[3]) && parses_to(children_json@[3], children_vec@[3]) && node_wf(children_vec@[3]));
            assert(json_tree_ok(children_json@[4]) && parses_to(children_json@[4], children_vec@[4]) && node_wf(children_vec@[4]));
            assert(json_tree_ok(children_json@[5]) && parses_to(children_json@[5], children_vec@[5]) && node_wf(children_vec@[5]));
            assert(json_tree_ok(children_json@[6]) && parses_to(children_json@[6], children_vec@[6]) && node_wf(children_vec@[6]));
            assert(json_tree_ok(children_json@[7]) && parses_to(children_json@[7], children_vec@[7]) && node_wf(children_vec@[7]));
        }
        Some(Node::Children(children_vec))
    }

    /// The tree as JSON: for each node an object with the members
    /// `children` (null for a leaf, else the array of the eight children)
    /// and `type` (the name of a leaf's block, else the string `"null"`).
    /// `from_json` accepts what it writes.
    pub fn to_json(&self) -> (r: JsonValue)
        ensures
            self.json_form(r),
            r@ == self.json_doc(),
            self.is_compact() && self.is_shaped() ==> r@ == canonical_doc(
                |p: IVec3| self.block(p),
                IVec3 { x: 0, y: 0, z: 0 },
                self.side() as int,
            ),
            json_tree_ok(r),
            forall|p: IVec3|
                #[trigger] json_block(r, IVec3 { x: 0, y: 0, z: 0 }, self.side() as int, p) == self.block(p),
    {
        proof {
            use_type_invariant(self);
        }
        let r = Self::browse_rec(&self.root);
        proof {
            lemma_exact_parses(r, self.root);
            lemma_exact_view(r, self.root);
            if self.is_compact() && self.is_shaped() {
                law_merged_form(*self);
            }
            assert forall|p: IVec3|
                #[trigger] json_block(r, IVec3 { x: 0, y: 0, z: 0 }, self.side() as int, p) == self.block(p) by {
                lemma_parsed_blocks(r, self.root, IVec3 { x: 0, y: 0, z: 0 }, self.size as int, p);
            }
        }
        r
    }

    /// The JSON text of the tree, as `to_json` describes it and `serde_json`
    /// writes it. For a tree of the right form (every tree that `new` builds
    /// and the writes change), or any tree at most 49 split nodes deep (its
    /// JSON then nests well within the 128 levels `serde_json` reads),
    /// `serde_json` reads the text back as the JSON of this tree, so
    /// `load_text` gives it back (see `law_json_round_trip`).
    pub fn save_text(&self) -> (r: String)
        ensures
            r@ == text_of_json(self.json_doc()),
            self.is_shaped() || self.depth() <= 49 ==> json_of_text(r@) is Some && self.json_form(
                json_of_text(r@).unwrap(),
            ),
    {
        proof {
            use_type_invariant(self);
        }
        let v = self.to_json();
        let r = json_text(&v);
        proof {
            if self.is_shaped() {
                assert(u32::MAX < two_to(32)) by {
                    reveal_with_fuel(two_to, 33);
                }
                lemma_levels_below(self.size as int, 32);
                lemma_shaped_depth(self.root, self.size as int);
            }
            if self.is_shaped() || self.depth() <= 49 {
                lemma_doc_canonical(self.root, 100);
                lemma_view_exact(json_of_text(r@).unwrap(), self.root);
            }
        }
        r
    }

    /// The tree that the JSON text `text` describes, as a cube of side
    /// `size`: `LoadFailed` when `serde_json` refuses the text or the
    /// document describes no tree (see `json_tree_ok`).
    pub fn load_text(text: &str, size: u32) -> (r: Result<Self, OctreeError>)
        ensures
            json_of_text(text@) is None ==> r == Err::<Self, OctreeError>(OctreeError::LoadFailed),
            json_of_text(text@) matches Some(v) ==> (r is Ok <==> json_tree_ok(v)) && (r matches Ok(t) ==> t.side()
                == size && t.parsed_from(v) && t.depth() == json_tree_depth(v) && forall|p: IVec3|
                #[trigger] t.block(p) == json_block(v, IVec3 { x: 0, y: 0, z: 0 }, size as int, p)),
            r is Err ==> r == Err::<Self, OctreeError>(OctreeError::LoadFailed),
    {
        let v = match parse_json_text(text) {
            Some(v) => v,
            None => {
                return Err(OctreeError::LoadFailed);
            },
        };
        match Self::from_json(&v, size) {
            Some(t) => Ok(t),
            None => Err(OctreeError::LoadFailed),
        }
    }

    /// The tree that `v` describes, as a cube of side `size`; `None` when
    /// `v` describes no tree (see `json_tree_ok`). The side is taken as
    /// given, even where it is not a power of two.
    pub fn from_json(v: &JsonValue, size: u32) -> (r: Option<Self>)
        ensures
            r is Some <==> json_tree_ok(*v),
            r matches Some(t) ==> t.side() == size && t.parsed_from(*v),
            r matches Some(t) ==> forall|p: IVec3|
                #[trigger] t.block(p) == json_block(*v, IVec3 { x: 0, y: 0, z: 0 }, size as int, p),
            r matches Some(t) ==> t.depth() == json_tree_depth(*v),
    {
        let root = match Self::from_json_rec(v) {
            Some(n) => n,
            None => {
                return None;
            },
        };
        let t = Self { size, root };
        proof {
            lemma_parsed_depth(*v, root);
            assert forall|p: IVec3| #[trigger] t.block(p) == json_block(*v, IVec3 { x: 0, y: 0, z: 0 }, size as int, p) by {
                lemma_parsed_blocks(*v, root, IVec3 { x: 0, y: 0, z: 0 }, size as int, p);
            }
        }
        Some(t)
    }
}

/// The members of an object decrease to the elements of the arrays among
/// them.
proof fn lemma_get_decreases(v: JsonValue, key: Seq<char>, i: int)
    requires
        json_get(v, key) matches Some(JsonValue::Array(a)) && 0 <= i < a.len(),
    ensures
        json_get(v, key) matches Some(JsonValue::Array(a)) && decreases_to!(v => a@[i]),
{
    if let JsonValue::Object(e) = v {
        let k = key_index(e@, key);
        if let JsonValue::Array(a) = e@[k].1 {
            assert(decreases_to!(v => e));
            assert(decreases_to!(e => e@));
            assert(decreases_to!(e@ => e@[k]));
            assert(decreases_to!(e@[k] => e@[k].1));
            assert(decreases_to!(e@[k].1 => a));
            assert(decreases_to!(a => a@[i]));
        }
    }
}

/// What `to_json` writes describes the tree it was written from.
proof fn lemma_exact_parses(v: JsonValue, n: Node)
    requires
        json_exact(v, n),
    ensures
        json_tree_ok(v),
        parses_to(v, n),
    decreases n,
{
    reveal_strlit("children");
    reveal_strlit("type");
    reveal_strlit("null");
    reveal_strlit("Air");
    reveal_strlit("Grass");
    reveal_strlit("Dirt");
    reveal_strlit("Stone");
    if let JsonValue::Object(e) = v {
        assert("children"@[0] != "type"@[0]);
        assert(e@[0].0@ != "type"@);
        assert(key_index(e@, "type"@) == 1) by {
            assert(e@.drop_first()[0] == e@[1]);
            reveal_with_fuel(key_index, 2);
        }
        assert(key_index(e@, "children"@) == 0);
        match n {
            Node::Leaf(b) => {
                lemma_block_name_round_trip(b);
                assert(block_name(b) != "null"@) by {
                    assert(block_name(b)[0] != "null"@[0]);
                }
            },
            Node::Children(c) => {
                if let JsonValue::Array(a) = e@[0].1 {
                    lemma_exact_parses(a@[0], c@[0]);
                    lemma_exact_parses(a@[1], c@[1]);
                    lemma_exact_parses(a@[2], c@[2]);
                    lemma_exact_parses(a@[3], c@[3]);
                    lemma_exact_parses(a@[4], c@[4]);
                    lemma_exact_parses(a@[5], c@[5]);
                    lemma_exact_parses(a@[6], c@[6]);
                    lemma_exact_parses(a@[7], c@[7]);
                }
            },
        }
    }
}

/// A description names one tree only, up to the vectors that hold it.
proof fn lemma_parse_unique(v: JsonValue, n: Node, m: Node)
    requires
        parses_to(v, n),
        parses_to(v, m),
    ensures
        same_tree(n, m),
    decreases n,
{
    if let JsonValue::Object(e) = v {
        let ci = key_index(e@, "children"@);
        if let (Node::Children(c), Node::Children(d)) = (n, m) {
            if let JsonValue::Array(a) = e@[ci].1 {
                lemma_parse_unique(a@[0], c@[0], d@[0]);
                lemma_parse_unique(a@[1], c@[1], d@[1]);
                lemma_parse_unique(a@[2], c@[2], d@[2]);
                lemma_parse_unique(a@[3], c@[3], d@[3]);
                lemma_parse_unique(a@[4], c@[4], d@[4]);
                lemma_parse_unique(a@[5], c@[5], d@[5]);
                lemma_parse_unique(a@[6], c@[6], d@[6]);
                lemma_parse_unique(a@[7], c@[7], d@[7]);
            }
        }
    }
}

/// The children of two trees of the same shape are pairwise of the same
/// shape.
proof fn lemma_same_kid(c: Vec<Node>, d: Vec<Node>, i: int)
    requires
        same_tree(Node::Children(c), Node::Children(d)),
        0 <= i < 8,
    ensures
        same_tree(c@[i], d@[i]),
{
    if i == 0 {
    } else if i == 1 {
    } else if i == 2 {
    } else if i == 3 {
    } else if i == 4 {
    } else if i == 5 {
    } else if i == 6 {
    } else {
    }
}

/// Trees of the same shape with the same leaves hold the same blocks.
proof fn lemma_same_lookup(n: Node, m: Node, o: IVec3, s: int, p: IVec3)
    requires
        same_tree(n, m),
    ensures
        lookup(n, o, s, p) == lookup(m, o, s, p),
    decreases n,
{
    if let (Node::Children(c), Node::Children(d)) = (n, m) {
        let i = octant(o, s / 2, p);
        lemma_same_kid(c, d, i);
        lemma_same_lookup(c@[i], d@[i], octant_origin(o, s / 2, i), s / 2, p);
    }
}

/// Trees of the same shape with the same leaves list the same leaves and
/// are equally compact.
proof fn lemma_same_shape(n: Node, m: Node)
    requires
        same_tree(n, m),
    ensures
        forall|o: IVec3, s: int| #[trigger] leaves_of(n, o, s) == leaves_of(m, o, s),
        forall|s: int| #[trigger] shaped(n, s) == shaped(m, s),
        compact(n) == compact(m),
    decreases n,
{
    if let (Node::Children(c), Node::Children(d)) = (n, m) {
        lemma_same_shape(c@[0], d@[0]);
        lemma_same_shape(c@[1], d@[1]);
        lemma_same_shape(c@[2], d@[2]);
        lemma_same_shape(c@[3], d@[3]);
        lemma_same_shape(c@[4], d@[4]);
        lemma_same_shape(c@[5], d@[5]);
        lemma_same_shape(c@[6], d@[6]);
        lemma_same_shape(c@[7], d@[7]);
        assert forall|o: IVec3, s: int| #[trigger] leaves_of(n, o, s) == leaves_of(m, o, s) by {
            let h = s / 2;
            assert(leaves_of(c@[0], octant_origin(o, h, 0), h) == leaves_of(d@[0], octant_origin(o, h, 0), h));
            assert(leaves_of(c@[1], octant_origin(o, h, 1), h) == leaves_of(d@[1], octant_origin(o, h, 1), h));
            assert(leaves_of(c@[2], octant_origin(o, h, 2), h) == leaves_of(d@[2], octant_origin(o, h, 2), h));
            assert(leaves_of(c@[3], octant_origin(o, h, 3), h) == leaves_of(d@[3], octant_origin(o, h, 3), h));
            assert(leaves_of(c@[4], octant_origin(o, h, 4), h) == leaves_of(d@[4], octant_origin(o, h, 4), h));
            assert(leaves_of(c@[5], octant_origin(o, h, 5), h) == leaves_of(d@[5], octant_origin(o, h, 5), h));
            assert(leaves_of(c@[6], octant_origin(o, h, 6), h) == leaves_of(d@[6], octant_origin(o, h, 6), h));
            assert(leaves_of(c@[7], octant_origin(o, h, 7), h) == leaves_of(d@[7], octant_origin(o, h, 7), h));
        }
        assert forall|s: int| #[trigger] shaped(n, s) == shaped(m, s) by {
            let h = s / 2;
            assert(shaped(c@[0], h) == shaped(d@[0], h) && shaped(c@[1], h) == shaped(d@[1], h));
            assert(shaped(c@[2], h) == shaped(d@[2], h) && shaped(c@[3], h) == shaped(d@[3], h));
            assert(shaped(c@[4], h) == shaped(d@[4], h) && shaped(c@[5], h) == shaped(d@[5], h));
            assert(shaped(c@[6], h) == shaped(d@[6], h) && shaped(c@[7], h) == shaped(d@[7], h));
        }
        assert(uniform_leaves(c@) == uniform_leaves(d@)) by {
            lemma_same_kid(c, d, 0);
            if uniform_leaves(c@) {
                assert forall|i: int| 1 <= i < 8 implies #[trigger] d@[i] == d@[0] by {
                    assert(c@[i] == c@[0]);
                    lemma_same_kid(c, d, i);
                }
            }
            if uniform_leaves(d@) {
                assert forall|i: int| 1 <= i < 8 implies #[trigger] c@[i] == c@[0] by {
                    assert(d@[i] == d@[0]);
                    lemma_same_kid(c, d, i);
                }
            }
        }
    }
}

/// A point of octant `i` of a cube of even side lies in the cube, and in
/// the octant that `octant` names for it.
proof fn lemma_octant_point(origin: IVec3, size: int, i: int, q: IVec3)
    requires
        size >= 2,
        size % 2 == 0,
        fits(origin, size),
        0 <= i < 8,
        in_region(octant_origin(origin, size / 2, i), size / 2, q),
    ensures
        in_region(origin, size, q),
        octant(origin, size / 2, q) == i,
        fits(octant_origin(origin, size / 2, i), size / 2),
{
}

/// A compact tree of the right form that holds `b` at every position of its
/// cube is the single leaf `b`.
proof fn lemma_uniform_is_leaf(n: Node, o: IVec3, size: int, b: BlockType)
    requires
        compact(n),
        shaped(n, size),
        size >= 1,
        fits(o, size),
        forall|p: IVec3| in_region(o, size, p) ==> #[trigger] lookup(n, o, size, p) == b,
    ensures
        n == Node::Leaf(b),
    decreases n,
{
    match n {
        Node::Leaf(a) => {
            assert(in_region(o, size, o));
            assert(lookup(n, o, size, o) == b);
        },
        Node::Children(c) => {
            let h = size / 2;
            assert forall|i: int| 0 <= i < 8 implies #[trigger] c@[i] == Node::Leaf(b) by {
                lemma_child_shaped(c, size, i);
                lemma_child_compact(c, i);
                let co = octant_origin(o, h, i);
                assert(in_region(co, h, co));
                lemma_octant_point(o, size, i, co);
                assert forall|p: IVec3| in_region(co, h, p) implies #[trigger] lookup(c@[i], co, h, p) == b by {
                    lemma_octant_point(o, size, i, p);
                    assert(lookup(n, o, size, p) == b);
                }
                lemma_uniform_is_leaf(c@[i], co, h, b);
            }
            assert(uniform_leaves(c@));
        },
    }
}

/// Two compact trees of the right form that hold the same block at every
/// position of their cube have the same shape and the same leaves.
proof fn lemma_canonical(n: Node, m: Node, o: IVec3, size: int)
    requires
        compact(n),
        compact(m),
        shaped(n, size),
        shaped(m, size),
        size >= 1,
        fits(o, size),
        forall|p: IVec3| in_region(o, size, p) ==> #[trigger] lookup(n, o, size, p) == lookup(m, o, size, p),
    ensures
        same_tree(n, m),
    decreases n,
{
    match n {
        Node::Leaf(a) => {
            assert(in_region(o, size, o));
            assert(lookup(n, o, size, o) == lookup(m, o, size, o));
            if m is Children {
                assert forall|p: IVec3| in_region(o, size, p) implies #[trigger] lookup(m, o, size, p) == a by {
                    assert(lookup(n, o, size, p) == lookup(m, o, size, p));
                }
                lemma_uniform_is_leaf(m, o, size, a);
            }
        },
        Node::Children(c) => {
            match m {
                Node::Leaf(b) => {
                    assert forall|p: IVec3| in_region(o, size, p) implies #[trigger] lookup(n, o, size, p) == b by {
                        assert(lookup(n, o, size, p) == lookup(m, o, size, p));
                    }
                    lemma_uniform_is_leaf(n, o, size, b);
                },
                Node::Children(d) => {
                    let h = size / 2;
                    assert forall|i: int| 0 <= i < 8 implies #[trigger] same_tree(c@[i], d@[i]) by {
                        lemma_child_shaped(c, size, i);
                        lemma_child_shaped(d, size, i);
                        lemma_child_compact(c, i);
                        lemma_child_compact(d, i);
                        let co = octant_origin(o, h, i);
                        assert(in_region(co, h, co));
                        lemma_octant_point(o, size, i, co);
                        assert forall|p: IVec3| in_region(co, h, p) implies #[trigger] lookup(c@[i], co, h, p)
                            == lookup(d@[i], co, h, p) by {
                            lemma_octant_point(o, size, i, p);
                            assert(lookup(n, o, size, p) == lookup(m, o, size, p));
                        }
                        lemma_canonical(c@[i], d@[i], co, h);
                    }
                    lemma_child_shaped(c, size, 0);
                    lemma_child_shaped(d, size, 0);
                    assert(same_tree(c@[0], d@[0]) && same_tree(c@[1], d@[1]) && same_tree(c@[2], d@[2])
                        && same_tree(c@[3], d@[3]));
                    assert(same_tree(c@[4], d@[4]) && same_tree(c@[5], d@[5]) && same_tree(c@[6], d@[6])
                        && same_tree(c@[7], d@[7]));
                },
            }
        },
    }
}

/// A position shares its cell with itself.
pub proof fn lemma_cell_of_itself(origin: IVec3, size: int, p: IVec3)
    ensures
        same_cell(origin, size, p, p),
    decreases size,
{
    if size > 1 {
        lemma_cell_of_itself(octant_origin(origin, size / 2, octant(origin, size / 2, p)), size / 2, p);
    }
}

/// In a cube whose side is a power of two, two positions of the cube share
/// a cell only when they are the same position.
pub proof fn lemma_cell_is_voxel(origin: IVec3, size: int, p: IVec3, q: IVec3)
    requires
        is_pow2(size),
        fits(origin, size),
        in_region(origin, size, p),
        in_region(origin, size, q),
        same_cell(origin, size, p, q),
    ensures
        p == q,
    decreases size,
{
    if size > 1 {
        let h = size / 2;
        lemma_octant_region(origin, size, p);
        lemma_octant_region(origin, size, q);
        lemma_cell_is_voxel(octant_origin(origin, h, octant(origin, h, p)), h, p, q);
    }
}

/// The cube that leaf entry `i` of `l` covers holds `q`.
pub open spec fn in_leaf(l: Seq<(IVec3, u32, BlockType)>, i: int, q: IVec3) -> bool {
    in_region(l[i].0, l[i].1 as int, q)
}

/// A leaf cube whose side is a power of two that divides each coordinate
/// of its corner.
pub open spec fn aligned_leaf(l: (IVec3, u32, BlockType)) -> bool {
    &&& is_pow2(l.1 as int)
    &&& (l.0.x as int) % (l.1 as int) == 0
    &&& (l.0.y as int) % (l.1 as int) == 0
    &&& (l.0.z as int) % (l.1 as int) == 0
}

/// Every cube of `l` is aligned.
spec fn all_aligned(l: Seq<(IVec3, u32, BlockType)>) -> bool {
    forall|i: int| 0 <= i < l.len() ==> #[trigger] aligned_leaf(l[i])
}

proof fn lemma_aligned_concat(a: Seq<(IVec3, u32, BlockType)>, b: Seq<(IVec3, u32, BlockType)>)
    requires
        all_aligned(a),
        all_aligned(b),
    ensures
        all_aligned(a + b),
{
    assert forall|i: int| 0 <= i < (a + b).len() implies #[trigger] aligned_leaf((a + b)[i]) by {
        if i < a.len() {
            assert((a + b)[i] == a[i]);
        } else {
            assert((a + b)[i] == b[i - a.len()]);
        }
    }
}

/// A multiple of `2 * h` is a multiple of `h`, and so is the next one up by `h`.
proof fn lemma_aligned_half(a: int, h: int)
    requires
        h > 0,
        a % (2 * h) == 0,
    ensures
        a % h == 0,
        (a + h) % h == 0,
{
    let k = a / (2 * h);
    assert(a == (2 * h) * k) by (nonlinear_arith)
        requires
            h > 0,
            a % (2 * h) == 0,
            k == a / (2 * h),
    ;
    assert(a == (2 * k) * h) by (nonlinear_arith)
        requires
            a == (2 * h) * k,
    ;
    vstd::arithmetic::div_mod::lemma_mod_multiples_basic(2 * k, h);
    assert((a + h) == (2 * k + 1) * h) by (nonlinear_arith)
        requires
            a == (2 * k) * h,
    ;
    vstd::arithmetic::div_mod::lemma_mod_multiples_basic(2 * k + 1, h);
}

/// Every cube of `l` lies in the cube of side `size` at `o`, and the tree
/// `n` holds the cube's block at each of its positions.
spec fn leaves_sound(l: Seq<(IVec3, u32, BlockType)>, n: Node, o: IVec3, size: int) -> bool {
    forall|i: int, q: IVec3|
        0 <= i < l.len() && #[trigger] in_leaf(l, i, q) ==> in_region(o, size, q) && lookup(n, o, size, q) == l[i].2
}

/// Some cube of `l` holds `q`.
spec fn leaves_cover(l: Seq<(IVec3, u32, BlockType)>, q: IVec3) -> bool {
    exists|i: int| 0 <= i < l.len() && #[trigger] in_leaf(l, i, q)
}

/// No position lies in two cubes of `l`.
spec fn leaves_disjoint(l: Seq<(IVec3, u32, BlockType)>) -> bool {
    forall|i: int, j: int, q: IVec3| 0 <= i < j < l.len() ==> !(#[trigger] in_leaf(l, i, q) && #[trigger] in_leaf(l, j, q))
}

/// The cubes of `a + b` are those of `a`, then those of `b`.
proof fn lemma_leaves_concat(a: Seq<(IVec3, u32, BlockType)>, b: Seq<(IVec3, u32, BlockType)>, q: IVec3)
    ensures
        forall|i: int| 0 <= i < a.len() ==> (in_leaf(a + b, i, q) == #[trigger] in_leaf(a, i, q)),
        forall|j: int| 0 <= j < b.len() ==> (in_leaf(a + b, a.len() + j, q) == #[trigger] in_leaf(b, j, q)),
        leaves_cover(a, q) || leaves_cover(b, q) ==> leaves_cover(a + b, q),
{
    assert forall|i: int| 0 <= i < a.len() implies (in_leaf(a + b, i, q) == #[trigger] in_leaf(a, i, q)) by {
        assert((a + b)[i] == a[i]);
    }
    assert forall|j: int| 0 <= j < b.len() implies (in_leaf(a + b, a.len() + j, q) == #[trigger] in_leaf(b, j, q)) by {
        assert((a + b)[a.len() + j] == b[j]);
    }
    if leaves_cover(b, q) {
        let j = choose|j: int| 0 <= j < b.len() && #[trigger] in_leaf(b, j, q);
        assert(in_leaf(a + b, a.len() + j, q));
    }
    if leaves_cover(a, q) {
        let i = choose|i: int| 0 <= i < a.len() && #[trigger] in_leaf(a, i, q);
        assert(in_leaf(a + b, i, q));
    }
}

/// Sound lists stay sound when joined.
proof fn lemma_sound_concat(a: Seq<(IVec3, u32, BlockType)>, b: Seq<(IVec3, u32, BlockType)>, n: Node, o: IVec3, size: int)
    requires
        leaves_sound(a, n, o, size),
        leaves_sound(b, n, o, size),
    ensures
        leaves_sound(a + b, n, o, size),
{
    assert forall|i: int, q: IVec3| 0 <= i < (a + b).len() && #[trigger] in_leaf(a + b, i, q) implies in_region(
        o,
        size,
        q,
    ) && lookup(n, o, size, q) == (a + b)[i].2 by {
        lemma_leaves_concat(a, b, q);
        if i < a.len() {
            assert(in_leaf(a, i, q));
        } else {
            assert(in_leaf(b, i - a.len(), q));
        }
    }
}

/// Joining the leaves of the first octants (all of octant below `m`) and
/// those of octant `m` keeps the cubes apart.
proof fn lemma_disjoint_step(
    p: Seq<(IVec3, u32, BlockType)>,
    l: Seq<(IVec3, u32, BlockType)>,
    o: IVec3,
    h: int,
    m: int,
)
    requires
        leaves_disjoint(p),
        leaves_disjoint(l),
        forall|i: int, q: IVec3| 0 <= i < p.len() && #[trigger] in_leaf(p, i, q) ==> octant(o, h, q) < m,
        forall|j: int, q: IVec3| 0 <= j < l.len() && #[trigger] in_leaf(l, j, q) ==> octant(o, h, q) == m,
    ensures
        leaves_disjoint(p + l),
        forall|i: int, q: IVec3| 0 <= i < (p + l).len() && #[trigger] in_leaf(p + l, i, q) ==> octant(o, h, q) < m + 1,
{
    assert forall|i: int, j: int, q: IVec3| 0 <= i < j < (p + l).len() implies !(#[trigger] in_leaf(p + l, i, q)
        && #[trigger] in_leaf(p + l, j, q)) by {
        lemma_leaves_concat(p, l, q);
        if j < p.len() {
            assert(in_leaf(p + l, i, q) == in_leaf(p, i, q));
            assert(in_leaf(p + l, j, q) == in_leaf(p, j, q));
        } else if i < p.len() {
            assert(in_leaf(p + l, i, q) == in_leaf(p, i, q));
            assert(in_leaf(p + l, p.len() + (j - p.len()), q) == in_leaf(l, j - p.len(), q));
        } else {
            assert(in_leaf(p + l, p.len() + (i - p.len()), q) == in_leaf(l, i - p.len(), q));
            assert(in_leaf(p + l, p.len() + (j - p.len()), q) == in_leaf(l, j - p.len(), q));
        }
    }
    assert forall|i: int, q: IVec3| 0 <= i < (p + l).len() && #[trigger] in_leaf(p + l, i, q) implies octant(o, h, q)
        < m + 1 by {
        lemma_leaves_concat(p, l, q);
        if i < p.len() {
            assert(in_leaf(p, i, q));
        } else {
            assert(in_leaf(p + l, p.len() + (i - p.len()), q) == in_leaf(l, i - p.len(), q));
        }
    }
}

/// The leaves of the tree `n` covering the cube of side `size` at `o` lie
/// in that cube, each holding the block the tree holds there; together
/// they cover the cube.
proof fn lemma_leaves_tile(n: Node, o: IVec3, size: int)
    requires
        shaped(n, size),
        is_pow2(size),
        fits(o, size),
        size <= u32::MAX,
    ensures
        leaves_sound(leaves_of(n, o, size), n, o, size),
        (o.x as int) % size == 0 && (o.y as int) % size == 0 && (o.z as int) % size == 0 ==> all_aligned(leaves_of(n, o, size)),
        forall|q: IVec3| in_region(o, size, q) ==> #[trigger] leaves_cover(leaves_of(n, o, size), q),
        leaves_disjoint(leaves_of(n, o, size)),
    decreases n,
{
    match n {
        Node::Leaf(b) => {
            let l = leaves_of(n, o, size);
            assert forall|q: IVec3| in_region(o, size, q) implies #[trigger] leaves_cover(l, q) by {
                assert(in_leaf(l, 0, q));
            }
        },
        Node::Children(c) => {
            let h = size / 2;
            let ls = Seq::new(8, |k: int| leaves_of(c@[k], octant_origin(o, h, k), h));
            assert forall|k: int| 0 <= k < 8 implies #[trigger] leaves_sound(ls[k], n, o, size) && (forall|q: IVec3|
                in_region(octant_origin(o, h, k), h, q) ==> #[trigger] leaves_cover(ls[k], q)) && leaves_disjoint(ls[k])
                && (forall|i: int, q: IVec3| 0 <= i < ls[k].len() && #[trigger] in_leaf(ls[k], i, q) ==> octant(o, h, q)
                == k) by {
                lemma_child_shaped(c, size, k);
                let ok = octant_origin(o, h, k);
                assert(in_region(ok, h, ok));
                lemma_octant_point(o, size, k, ok);
                lemma_leaves_tile(c@[k], ok, h);
                assert forall|i: int, q: IVec3| 0 <= i < ls[k].len() && #[trigger] in_leaf(ls[k], i, q) implies in_region(
                    o,
                    size,
                    q,
                ) && lookup(n, o, size, q) == ls[k][i].2 by {
                    lemma_octant_point(o, size, k, q);
                }
                assert forall|i: int, q: IVec3| 0 <= i < ls[k].len() && #[trigger] in_leaf(ls[k], i, q) implies octant(
                    o,
                    h,
                    q,
                ) == k by {
                    lemma_octant_point(o, size, k, q);
                }
            }
            lemma_child_shaped(c, size, 0);
            let p1 = ls[0] + ls[1];
            let p2 = p1 + ls[2];
            let p3 = p2 + ls[3];
            let p4 = p3 + ls[4];
            let p5 = p4 + ls[5];
            let p6 = p5 + ls[6];
            let p7 = p6 + ls[7];
            assert(leaves_of(n, o, size) == p7);
            lemma_sound_concat(ls[0], ls[1], n, o, size);
            lemma_sound_concat(p1, ls[2], n, o, size);
            lemma_sound_concat(p2, ls[3], n, o, size);
            lemma_sound_concat(p3, ls[4], n, o, size);
            lemma_sound_concat(p4, ls[5], n, o, size);
            lemma_sound_concat(p5, ls[6], n, o, size);
            lemma_sound_concat(p6, ls[7], n, o, size);
            assert(leaves_sound(ls[0], n, o, size) && leaves_sound(ls[1], n, o, size) && leaves_sound(ls[2], n, o, size)
                && leaves_sound(ls[3], n, o, size) && leaves_sound(ls[4], n, o, size) && leaves_sound(ls[5], n, o, size)
                && leaves_sound(ls[6], n, o, size) && leaves_sound(ls[7], n, o, size));
            if (o.x as int) % size == 0 && (o.y as int) % size == 0 && (o.z as int) % size == 0 {
                assert(size % 2 == 0 && is_pow2(h));
                lemma_aligned_half(o.x as int, h);
                lemma_aligned_half(o.y as int, h);
                lemma_aligned_half(o.z as int, h);
                assert forall|k: int| 0 <= k < 8 implies #[trigger] all_aligned(ls[k]) by {
                    lemma_child_shaped(c, size, k);
                    let ok = octant_origin(o, h, k);
                    assert(in_region(ok, h, ok));
                    lemma_octant_point(o, size, k, ok);
                    assert((ok.x as int) % h == 0 && (ok.y as int) % h == 0 && (ok.z as int) % h == 0);
                    lemma_leaves_tile(c@[k], ok, h);
                }
                assert(all_aligned(ls[0]) && all_aligned(ls[1]) && all_aligned(ls[2]) && all_aligned(ls[3]));
                assert(all_aligned(ls[4]) && all_aligned(ls[5]) && all_aligned(ls[6]) && all_aligned(ls[7]));
                lemma_aligned_concat(ls[0], ls[1]);
                lemma_aligned_concat(p1, ls[2]);
                lemma_aligned_concat(p2, ls[3]);
                lemma_aligned_concat(p3, ls[4]);
                lemma_aligned_concat(p4, ls[5]);
                lemma_aligned_concat(p5, ls[6]);
                lemma_aligned_concat(p6, ls[7]);
            }
            lemma_disjoint_step(ls[0], ls[1], o, h, 1);
            lemma_disjoint_step(p1, ls[2], o, h, 2);
            lemma_disjoint_step(p2, ls[3], o, h, 3);
            lemma_disjoint_step(p3, ls[4], o, h, 4);
            lemma_disjoint_step(p4, ls[5], o, h, 5);
            lemma_disjoint_step(p5, ls[6], o, h, 6);
            lemma_disjoint_step(p6, ls[7], o, h, 7);
            assert forall|q: IVec3| in_region(o, size, q) implies #[trigger] leaves_cover(p7, q) by {
                let k = octant(o, h, q);
                lemma_octant_region(o, size, q);
                assert(0 <= k < 8);
                assert(leaves_sound(ls[k], n, o, size));
                assert(leaves_cover(ls[k], q));
                lemma_leaves_concat(ls[0], ls[1], q);
                lemma_leaves_concat(p1, ls[2], q);
                lemma_leaves_concat(p2, ls[3], q);
                lemma_leaves_concat(p3, ls[4], q);
                lemma_leaves_concat(p4, ls[5], q);
                lemma_leaves_concat(p5, ls[6], q);
                lemma_leaves_concat(p6, ls[7], q);
            }
        },
    }
}

/// A power of two below twice another is at most that other.
proof fn lemma_pow2_le(n: int, m: int)
    requires
        is_pow2(n),
        is_pow2(m),
        n < 2 * m,
    ensures
        n <= m,
    decreases m,
{
    if n > 1 && m > 1 {
        lemma_pow2_le(n / 2, m / 2);
    }
}

/// Law: the leaves of a tree of the right form tile its cube. Each leaf
/// cube lies in the cube and the tree holds the leaf's block at every
/// position of it; every position of the cube lies in some leaf cube, and
/// none lies in two; the side of each leaf cube is a power of two that
/// divides the coordinates of its corner.
pub proof fn law_leaves_tile_the_cube(t: Octree)
    requires
        t.is_shaped(),
    ensures
        forall|i: int| 0 <= i < t.leaf_cubes().len() ==> #[trigger] aligned_leaf(t.leaf_cubes()[i]),
        forall|i: int, q: IVec3|
            0 <= i < t.leaf_cubes().len() && #[trigger] in_leaf(t.leaf_cubes(), i, q) ==> in_region(
                IVec3 { x: 0, y: 0, z: 0 },
                t.side() as int,
                q,
            ) && t.block(q) == t.leaf_cubes()[i].2,
        forall|q: IVec3|
            in_region(IVec3 { x: 0, y: 0, z: 0 }, t.side() as int, q) ==> exists|i: int|
                0 <= i < t.leaf_cubes().len() && #[trigger] in_leaf(t.leaf_cubes(), i, q),
        forall|i: int, j: int, q: IVec3|
            0 <= i < j < t.leaf_cubes().len() ==> !(#[trigger] in_leaf(t.leaf_cubes(), i, q) && #[trigger] in_leaf(
                t.leaf_cubes(),
                j,
                q,
            )),
{
    let o = IVec3 { x: 0, y: 0, z: 0 };
    let size = t.size as int;
    assert(is_pow2(0x8000_0000)) by {
        reveal_with_fuel(is_pow2, 33);
    }
    lemma_pow2_le(size, 0x8000_0000);
    lemma_leaves_tile(t.root, o, size);
    assert forall|q: IVec3| in_region(o, size, q) implies exists|i: int|
        0 <= i < t.leaf_cubes().len() && #[trigger] in_leaf(t.leaf_cubes(), i, q) by {
        assert(leaves_cover(leaves_of(t.root, o, size), q));
    }
}

/// Law: halving a cube of side `2 * half` at `origin` (whose corners fit in
/// an `i32`) into octants: a point of the cube lies in the octant that
/// `octant` names for it, and the corner of octant `j` lies in octant `j`.
pub proof fn law_octants(origin: IVec3, half: int, pos: IVec3, j: int)
    requires
        half > 0,
        0 <= j < 8,
        origin.x + 2 * half <= i32::MAX + 1,
        origin.y + 2 * half <= i32::MAX + 1,
        origin.z + 2 * half <= i32::MAX + 1,
    ensures
        in_region(origin, 2 * half, pos) ==> 0 <= octant(origin, half, pos) < 8 && in_region(
            octant_origin(origin, half, octant(origin, half, pos)),
            half,
            pos,
        ),
        octant(origin, half, octant_origin(origin, half, j)) == j,
{
    if j == 0 {
    } else if j == 1 {
    } else if j == 2 {
    } else if j == 3 {
    } else if j == 4 {
    } else if j == 5 {
    } else if j == 6 {
    } else {
    }
}

/// What `a + b` holds is what `a` holds and what `b` holds.
proof fn lemma_contains_concat(a: Seq<(IVec3, u32, BlockType)>, b: Seq<(IVec3, u32, BlockType)>, e: (IVec3, u32, BlockType))
    ensures
        (a + b).contains(e) ==> a.contains(e) || b.contains(e),
{
    if (a + b).contains(e) {
        let i = choose|i: int| 0 <= i < (a + b).len() && (a + b)[i] == e;
        if i < a.len() {
            assert(a[i] == e);
        } else {
            assert(b[i - a.len()] == e);
        }
    }
}

/// A leaf of a split node is a leaf of one of its children.
proof fn lemma_child_holding(c: Vec<Node>, o: IVec3, size: int, e: (IVec3, u32, BlockType)) -> (k: int)
    requires
        c.len() == 8,
        leaves_of(Node::Children(c), o, size).contains(e),
    ensures
        0 <= k < 8,
        leaves_of(c@[k], octant_origin(o, size / 2, k), size / 2).contains(e),
{
    let h = size / 2;
    let ls = Seq::new(8, |k: int| leaves_of(c@[k], octant_origin(o, h, k), h));
    let p1 = ls[0] + ls[1];
    let p2 = p1 + ls[2];
    let p3 = p2 + ls[3];
    let p4 = p3 + ls[4];
    let p5 = p4 + ls[5];
    let p6 = p5 + ls[6];
    assert(leaves_of(Node::Children(c), o, size) == p6 + ls[7]);
    lemma_contains_concat(p6, ls[7], e);
    lemma_contains_concat(p5, ls[6], e);
    lemma_contains_concat(p4, ls[5], e);
    lemma_contains_concat(p3, ls[4], e);
    lemma_contains_concat(p2, ls[3], e);
    lemma_contains_concat(p1, ls[2], e);
    lemma_contains_concat(ls[0], ls[1], e);
    if ls[0].contains(e) {
        0
    } else if ls[1].contains(e) {
        1
    } else if ls[2].contains(e) {
        2
    } else if ls[3].contains(e) {
        3
    } else if ls[4].contains(e) {
        4
    } else if ls[5].contains(e) {
        5
    } else if ls[6].contains(e) {
        6
    } else {
        7
    }
}

/// The side of every leaf is at least one and at most the side of the tree;
/// a leaf as large as the tree is the whole tree.
proof fn lemma_leaf_sides(n: Node, o: IVec3, size: int, e: (IVec3, u32, BlockType))
    requires
        shaped(n, size),
        is_pow2(size),
        fits(o, size),
        size <= u32::MAX,
        leaves_of(n, o, size).contains(e),
    ensures
        1 <= e.1 <= size,
        e.1 == size ==> n == Node::Leaf(e.2) && e.0 == o,
    decreases n,
{
    if let Node::Children(c) = n {
        let h = size / 2;
        lemma_child_shaped(c, size, 0);
        assert(size % 2 == 0 && is_pow2(h));
        let k = lemma_child_holding(c, o, size, e);
        lemma_child_shaped(c, size, k);
        let ok = octant_origin(o, h, k);
        assert(in_region(ok, h, ok));
        lemma_octant_point(o, size, k, ok);
        lemma_leaf_sides(c@[k], ok, h, e);
    }
}

/// A leaf of a split node is a leaf of the child whose octant holds the
/// leaf's corner.
proof fn lemma_leaf_in_child(c: Vec<Node>, o: IVec3, size: int, e: (IVec3, u32, BlockType)) -> (k: int)
    requires
        shaped(Node::Children(c), size),
        is_pow2(size),
        fits(o, size),
        size <= u32::MAX,
        leaves_of(Node::Children(c), o, size).contains(e),
    ensures
        0 <= k < 8,
        k == octant(o, size / 2, e.0),
        leaves_of(c@[k], octant_origin(o, size / 2, k), size / 2).contains(e),
{
    let h = size / 2;
    lemma_child_shaped(c, size, 0);
    assert(size % 2 == 0 && is_pow2(h));
    let k = lemma_child_holding(c, o, size, e);
    lemma_child_shaped(c, size, k);
    let ok = octant_origin(o, h, k);
    let l = leaves_of(c@[k], ok, h);
    assert(in_region(ok, h, ok));
    lemma_octant_point(o, size, k, ok);
    lemma_leaves_tile(c@[k], ok, h);
    lemma_leaf_sides(c@[k], ok, h, e);
    let j = choose|j: int| 0 <= j < l.len() && l[j] == e;
    assert(in_leaf(l, j, e.0));
    lemma_octant_point(o, size, k, e.0);
    k
}

/// A multiple of a multiple of `b` is a multiple of `b`.
proof fn lemma_mod_trans(x: int, a: int, b: int)
    requires
        a > 0,
        b > 0,
        x % a == 0,
        a % b == 0,
    ensures
        x % b == 0,
{
    vstd::arithmetic::div_mod::lemma_fundamental_div_mod(x, a);
    vstd::arithmetic::div_mod::lemma_fundamental_div_mod(a, b);
    let u = x / a;
    let v = a / b;
    assert(x == (v * u) * b) by (nonlinear_arith)
        requires
            x == a * u,
            a == b * v,
    ;
    vstd::arithmetic::div_mod::lemma_mod_multiples_basic(v * u, b);
}

/// The sum of two multiples of `b` is one.
proof fn lemma_mod_sum(x: int, y: int, b: int)
    requires
        b > 0,
        x % b == 0,
        y % b == 0,
    ensures
        (x + y) % b == 0,
{
    vstd::arithmetic::div_mod::lemma_fundamental_div_mod(x, b);
    vstd::arithmetic::div_mod::lemma_fundamental_div_mod(y, b);
    let u = x / b;
    let w = y / b;
    assert(x + y == (u + w) * b) by (nonlinear_arith)
        requires
            x == b * u,
            y == b * w,
    ;
    vstd::arithmetic::div_mod::lemma_mod_multiples_basic(u + w, b);
}

/// A power of two divides every power of two at least as large.
proof fn lemma_pow2_divides(a: int, b: int)
    requires
        is_pow2(a),
        is_pow2(b),
        a <= b,
    ensures
        b % a == 0,
    decreases b,
{
    if a < b {
        lemma_pow2_le(a, b / 2);
        lemma_pow2_divides(a, b / 2);
        assert(b == 2 * (b / 2));
        vstd::arithmetic::div_mod::lemma_mod_multiples_basic(2, b / 2);
        lemma_mod_trans(b, b / 2, a);
    } else {
        vstd::arithmetic::div_mod::lemma_mod_self_0(a);
    }
}

/// A multiple of `2 * s` and the point `s` beyond it lie on the same side
/// of a boundary that is itself a multiple of `2 * s`.
proof fn lemma_same_side(q: int, m: int, s: int)
    requires
        s >= 1,
        q % (2 * s) == 0,
        m % (2 * s) == 0,
    ensures
        (q < m) == (q + s < m),
{
    vstd::arithmetic::div_mod::lemma_fundamental_div_mod(q, 2 * s);
    vstd::arithmetic::div_mod::lemma_fundamental_div_mod(m, 2 * s);
    let u = q / (2 * s);
    let v = m / (2 * s);
    assert((q < m) == (q + s < m)) by (nonlinear_arith)
        requires
            s >= 1,
            q == (2 * s) * u,
            m == (2 * s) * v,
    ;
}

/// Two multiples of `t` less than `t` apart are equal.
proof fn lemma_aligned_eq(x: int, y: int, t: int)
    requires
        t > 0,
        x % t == 0,
        y % t == 0,
        y <= x < y + t,
    ensures
        x == y,
{
    vstd::arithmetic::div_mod::lemma_fundamental_div_mod(x, t);
    vstd::arithmetic::div_mod::lemma_fundamental_div_mod(y, t);
    let u = x / t;
    let v = y / t;
    assert(u == v) by (nonlinear_arith)
        requires
            t > 0,
            x == t * u,
            y == t * v,
            y <= x < y + t,
    ;
}

/// In a compact tree of the right form whose corner is aligned to its side,
/// no eight leaves of one side `s` and one block fill a cube of side `2 * s`
/// aligned to its side.
proof fn lemma_merged(n: Node, o: IVec3, size: int, q: IVec3, s: int, b: BlockType)
    requires
        shaped(n, size),
        compact(n),
        is_pow2(size),
        fits(o, size),
        size <= u32::MAX,
        (o.x as int) % size == 0,
        (o.y as int) % size == 0,
        (o.z as int) % size == 0,
        is_pow2(s),
        fits(q, 2 * s),
        (q.x as int) % (2 * s) == 0,
        (q.y as int) % (2 * s) == 0,
        (q.z as int) % (2 * s) == 0,
    ensures
        !(forall|k: int|
            0 <= k < 8 ==> #[trigger] leaves_of(n, o, size).contains((octant_origin(q, s, k), s as u32, b))),
    decreases n,
{
    let l = leaves_of(n, o, size);
    if forall|k: int| 0 <= k < 8 ==> #[trigger] l.contains((octant_origin(q, s, k), s as u32, b)) {
        let e0 = (octant_origin(q, s, 0), s as u32, b);
        let e1 = (octant_origin(q, s, 1), s as u32, b);
        assert(l.contains(e0));
        assert(l.contains(e1));
        assert(octant_origin(q, s, 0) == q);
        lemma_leaf_sides(n, o, size, e0);
        match n {
            Node::Leaf(_) => {
                let i0 = choose|i: int| 0 <= i < l.len() && l[i] == e0;
                let i1 = choose|i: int| 0 <= i < l.len() && l[i] == e1;
                assert(i0 == 0 && i1 == 0);
                assert(e0.0.x != e1.0.x);
            },
            Node::Children(c) => {
                let h = size / 2;
                lemma_child_shaped(c, size, 0);
                assert(size % 2 == 0 && is_pow2(h));
                assert(s < size);
                lemma_pow2_le(s, h);
                lemma_leaves_tile(n, o, size);
                let j0 = choose|j: int| 0 <= j < l.len() && l[j] == e0;
                assert(in_leaf(l, j0, q));
                assert(in_region(o, size, q));
                if s == h {
                    lemma_aligned_eq(q.x as int, o.x as int, size);
                    lemma_aligned_eq(q.y as int, o.y as int, size);
                    lemma_aligned_eq(q.z as int, o.z as int, size);
                    assert(q == o);
                    assert forall|k: int| 0 <= k < 8 implies #[trigger] c@[k] == Node::Leaf(b) by {
                        let ek = (octant_origin(q, s, k), s as u32, b);
                        assert(l.contains(ek));
                        law_octants(o, h, ek.0, k);
                        let kk = lemma_leaf_in_child(c, o, size, ek);
                        lemma_child_shaped(c, size, k);
                        let ok = octant_origin(o, h, k);
                        assert(in_region(ok, h, ok));
                        lemma_octant_point(o, size, k, ok);
                        lemma_leaf_sides(c@[k], ok, h, ek);
                    }
                    assert(uniform_leaves(c@));
                } else {
                    assert(is_pow2(2 * s));
                    lemma_pow2_le(2 * s, h);
                    lemma_pow2_divides(2 * s, h);
                    lemma_pow2_divides(2 * s, size);
                    lemma_mod_trans(o.x as int, size, 2 * s);
                    lemma_mod_trans(o.y as int, size, 2 * s);
                    lemma_mod_trans(o.z as int, size, 2 * s);
                    lemma_mod_sum(o.x as int, h, 2 * s);
                    lemma_mod_sum(o.y as int, h, 2 * s);
                    lemma_mod_sum(o.z as int, h, 2 * s);
                    lemma_same_side(q.x as int, o.x + h, s);
                    lemma_same_side(q.y as int, o.y + h, s);
                    lemma_same_side(q.z as int, o.z + h, s);
                    let ks = octant(o, h, q);
                    lemma_octant_region(o, size, q);
                    let ok = octant_origin(o, h, ks);
                    assert forall|k: int| 0 <= k < 8 implies #[trigger] leaves_of(c@[ks], ok, h).contains(
                        (octant_origin(q, s, k), s as u32, b),
                    ) by {
                        let ek = (octant_origin(q, s, k), s as u32, b);
                        assert(l.contains(ek));
                        let kk = lemma_leaf_in_child(c, o, size, ek);
                        assert(octant(o, h, ek.0) == ks);
                    }
                    lemma_child_shaped(c, size, ks);
                    lemma_child_compact(c, ks);
                    lemma_aligned_half(o.x as int, h);
                    lemma_aligned_half(o.y as int, h);
                    lemma_aligned_half(o.z as int, h);
                    lemma_merged(c@[ks], ok, h, q, s, b);
                }
            },
        }
    }
}

/// Law: a compact tree of the right form lists its leaves as merged as its
/// blocks allow. No eight leaf cubes of one side `s` (a power of two) and
/// one block fill a cube of side `2 * s` whose corner is a multiple of
/// `2 * s`: such a cube is listed as one leaf.
pub proof fn law_leaves_are_merged(t: Octree, q: IVec3, s: int, b: BlockType)
    requires
        t.is_compact(),
        t.is_shaped(),
        is_pow2(s),
        fits(q, 2 * s),
        (q.x as int) % (2 * s) == 0,
        (q.y as int) % (2 * s) == 0,
        (q.z as int) % (2 * s) == 0,
    ensures
        !(forall|k: int| 0 <= k < 8 ==> #[trigger] t.leaf_cubes().contains((octant_origin(q, s, k), s as u32, b))),
{
    assert(is_pow2(0x8000_0000)) by {
        reveal_with_fuel(is_pow2, 33);
    }
    lemma_pow2_le(t.size as int, 0x8000_0000);
    let o = IVec3 { x: 0, y: 0, z: 0 };
    vstd::arithmetic::div_mod::lemma_small_mod(0, t.size as nat);
    lemma_merged(t.root, o, t.size as int, q, s, b);
    if forall|k: int| 0 <= k < 8 ==> #[trigger] t.leaf_cubes().contains((octant_origin(q, s, k), s as u32, b)) {
        assert forall|k: int| 0 <= k < 8 implies #[trigger] leaves_of(t.root, o, t.size as int).contains(
            (octant_origin(q, s, k), s as u32, b),
        ) by {
            assert(t.leaf_cubes().contains((octant_origin(q, s, k), s as u32, b)));
        }
    }
}

/// The merged leaves and document of a cube depend only on the blocks in
/// it.
proof fn lemma_canonical_agree(f: spec_fn(IVec3) -> BlockType, g: spec_fn(IVec3) -> BlockType, o: IVec3, size: int)
    requires
        is_pow2(size),
        fits(o, size),
        forall|p: IVec3| in_region(o, size, p) ==> #[trigger] f(p) == g(p),
    ensures
        canonical_leaves(f, o, size) == canonical_leaves(g, o, size),
        canonical_doc(f, o, size) == canonical_doc(g, o, size),
    decreases size,
{
    assert(in_region(o, size, o));
    assert(f(o) == g(o));
    assert(uniform_in(f, o, size) == uniform_in(g, o, size)) by {
        if uniform_in(f, o, size) {
            assert forall|p: IVec3| in_region(o, size, p) implies #[trigger] g(p) == g(o) by {
                assert(f(p) == f(o));
            }
        }
        if uniform_in(g, o, size) {
            assert forall|p: IVec3| in_region(o, size, p) implies #[trigger] f(p) == f(o) by {
                assert(g(p) == g(o));
            }
        }
    }
    if size > 1 && !uniform_in(f, o, size) {
        let h = size / 2;
        assert(size % 2 == 0 && is_pow2(h));
        assert forall|k: int| 0 <= k < 8 implies #[trigger] canonical_leaves(f, octant_origin(o, h, k), h)
            == canonical_leaves(g, octant_origin(o, h, k), h) && canonical_doc(f, octant_origin(o, h, k), h)
            == canonical_doc(g, octant_origin(o, h, k), h) by {
            let ok = octant_origin(o, h, k);
            assert(in_region(ok, h, ok));
            lemma_octant_point(o, size, k, ok);
            assert forall|p: IVec3| in_region(ok, h, p) implies #[trigger] f(p) == g(p) by {
                lemma_octant_point(o, size, k, p);
            }
            lemma_canonical_agree(f, g, ok, h);
        }
        assert(canonical_leaves(f, octant_origin(o, h, 0), h) == canonical_leaves(g, octant_origin(o, h, 0), h));
        assert(canonical_leaves(f, octant_origin(o, h, 1), h) == canonical_leaves(g, octant_origin(o, h, 1), h));
        assert(canonical_leaves(f, octant_origin(o, h, 2), h) == canonical_leaves(g, octant_origin(o, h, 2), h));
        assert(canonical_leaves(f, octant_origin(o, h, 3), h) == canonical_leaves(g, octant_origin(o, h, 3), h));
        assert(canonical_leaves(f, octant_origin(o, h, 4), h) == canonical_leaves(g, octant_origin(o, h, 4), h));
        assert(canonical_leaves(f, octant_origin(o, h, 5), h) == canonical_leaves(g, octant_origin(o, h, 5), h));
        assert(canonical_leaves(f, octant_origin(o, h, 6), h) == canonical_leaves(g, octant_origin(o, h, 6), h));
        assert(canonical_leaves(f, octant_origin(o, h, 7), h) == canonical_leaves(g, octant_origin(o, h, 7), h));
    }
}

/// A compact tree of the right form is the most merged tree of its blocks:
/// its leaves and its JSON are those that the blocks give.
proof fn lemma_canonical_form(n: Node, o: IVec3, size: int)
    requires
        shaped(n, size),
        compact(n),
        is_pow2(size),
        fits(o, size),
        size <= u32::MAX,
    ensures
        leaves_of(n, o, size) == canonical_leaves(|p: IVec3| lookup(n, o, size, p), o, size),
        node_doc(n) == canonical_doc(|p: IVec3| lookup(n, o, size, p), o, size),
    decreases n,
{
    let f = |p: IVec3| lookup(n, o, size, p);
    match n {
        Node::Leaf(b) => {
            assert(uniform_in(f, o, size));
        },
        Node::Children(c) => {
            let h = size / 2;
            lemma_child_shaped(c, size, 0);
            assert(size % 2 == 0 && is_pow2(h));
            if uniform_in(f, o, size) {
                assert forall|p: IVec3| in_region(o, size, p) implies #[trigger] lookup(n, o, size, p) == f(o) by {
                    assert(f(p) == f(o));
                }
                lemma_uniform_is_leaf(n, o, size, f(o));
            }
            assert forall|k: int| 0 <= k < 8 implies #[trigger] leaves_of(c@[k], octant_origin(o, h, k), h)
                == canonical_leaves(f, octant_origin(o, h, k), h) && node_doc(c@[k]) == canonical_doc(
                f,
                octant_origin(o, h, k),
                h,
            ) by {
                lemma_child_shaped(c, size, k);
                lemma_child_compact(c, k);
                let ok = octant_origin(o, h, k);
                assert(in_region(ok, h, ok));
                lemma_octant_point(o, size, k, ok);
                lemma_canonical_form(c@[k], ok, h);
                let g = |p: IVec3| lookup(c@[k], ok, h, p);
                assert forall|p: IVec3| in_region(ok, h, p) implies #[trigger] g(p) == f(p) by {
                    lemma_octant_point(o, size, k, p);
                }
                lemma_canonical_agree(g, f, ok, h);
            }
            assert(leaves_of(c@[0], octant_origin(o, h, 0), h) == canonical_leaves(f, octant_origin(o, h, 0), h));
            assert(leaves_of(c@[1], octant_origin(o, h, 1), h) == canonical_leaves(f, octant_origin(o, h, 1), h));
            assert(leaves_of(c@[2], octant_origin(o, h, 2), h) == canonical_leaves(f, octant_origin(o, h, 2), h));
            assert(leaves_of(c@[3], octant_origin(o, h, 3), h) == canonical_leaves(f, octant_origin(o, h, 3), h));
            assert(leaves_of(c@[4], octant_origin(o, h, 4), h) == canonical_leaves(f, octant_origin(o, h, 4), h));
            assert(leaves_of(c@[5], octant_origin(o, h, 5), h) == canonical_leaves(f, octant_origin(o, h, 5), h));
            assert(leaves_of(c@[6], octant_origin(o, h, 6), h) == canonical_leaves(f, octant_origin(o, h, 6), h));
            assert(leaves_of(c@[7], octant_origin(o, h, 7), h) == canonical_leaves(f, octant_origin(o, h, 7), h));
        },
    }
}

/// Whether the leaves of `t` include eight cubes of side `s` (a power of
/// two) holding `b` that fill the cube of side `2 * s` at `q`, a corner
/// whose coordinates are multiples of `2 * s`: eight leaves that could be one.
pub open spec fn fills_mergeable_cube(t: Octree, q: IVec3, s: int, b: BlockType) -> bool {
    &&& is_pow2(s)
    &&& fits(q, 2 * s)
    &&& (q.x as int) % (2 * s) == 0 && (q.y as int) % (2 * s) == 0 && (q.z as int) % (2 * s) == 0
    &&& forall|k: int| 0 <= k < 8 ==> #[trigger] t.leaf_cubes().contains((octant_origin(q, s, k), s as u32, b))
}

/// The leaves of `t` are as merged as its blocks allow: no eight of them
/// could be one.
pub open spec fn leaves_merged(t: Octree) -> bool {
    forall|q: IVec3, s: int, b: BlockType| !#[trigger] fills_mergeable_cube(t, q, s, b)
}

/// Whatever `a` or `b` holds, `a + b` holds.
proof fn lemma_contains_in_concat(a: Seq<(IVec3, u32, BlockType)>, b: Seq<(IVec3, u32, BlockType)>, e: (IVec3, u32, BlockType))
    ensures
        a.contains(e) || b.contains(e) ==> (a + b).contains(e),
{
    if a.contains(e) {
        let i = choose|i: int| 0 <= i < a.len() && a[i] == e;
        assert((a + b)[i] == e);
    } else if b.contains(e) {
        let i = choose|i: int| 0 <= i < b.len() && b[i] == e;
        assert((a + b)[a.len() + i] == e);
    }
}

/// A leaf of a child of a split node is a leaf of the node.
proof fn lemma_leaf_of_child(c: Vec<Node>, o: IVec3, size: int, k: int, e: (IVec3, u32, BlockType))
    requires
        c.len() == 8,
        0 <= k < 8,
        leaves_of(c@[k], octant_origin(o, size / 2, k), size / 2).contains(e),
    ensures
        leaves_of(Node::Children(c), o, size).contains(e),
{
    let h = size / 2;
    let ls = Seq::new(8, |k: int| leaves_of(c@[k], octant_origin(o, h, k), h));
    let p1 = ls[0] + ls[1];
    let p2 = p1 + ls[2];
    let p3 = p2 + ls[3];
    let p4 = p3 + ls[4];
    let p5 = p4 + ls[5];
    let p6 = p5 + ls[6];
    assert(leaves_of(Node::Children(c), o, size) == p6 + ls[7]);
    assert(ls[k].contains(e));
    lemma_contains_in_concat(ls[0], ls[1], e);
    lemma_contains_in_concat(p1, ls[2], e);
    lemma_contains_in_concat(p2, ls[3], e);
    lemma_contains_in_concat(p3, ls[4], e);
    lemma_contains_in_concat(p4, ls[5], e);
    lemma_contains_in_concat(p5, ls[6], e);
    lemma_contains_in_concat(p6, ls[7], e);
}

/// A tree of the right form that is not compact lists eight leaves that
/// could be one.
proof fn lemma_uncompact_witness(n: Node, o: IVec3, size: int) -> (w: (IVec3, int, BlockType))
    requires
        shaped(n, size),
        !compact(n),
        is_pow2(size),
        fits(o, size),
        size <= u32::MAX,
        (o.x as int) % size == 0,
        (o.y as int) % size == 0,
        (o.z as int) % size == 0,
    ensures
        is_pow2(w.1),
        fits(w.0, 2 * w.1),
        (w.0.x as int) % (2 * w.1) == 0 && (w.0.y as int) % (2 * w.1) == 0 && (w.0.z as int) % (2 * w.1) == 0,
        forall|k: int| 0 <= k < 8 ==> #[trigger] leaves_of(n, o, size).contains((octant_origin(w.0, w.1, k), w.1 as u32, w.2)),
    decreases n,
{
    match n {
        Node::Leaf(_) => {
            assert(false);
            (o, 1, BlockType::Air)
        },
        Node::Children(c) => {
            let h = size / 2;
            lemma_child_shaped(c, size, 0);
            assert(size % 2 == 0 && is_pow2(h));
            if uniform_leaves(c@) {
                let b = c@[0]->Leaf_0;
                assert forall|k: int| 0 <= k < 8 implies #[trigger] leaves_of(n, o, size).contains(
                    (octant_origin(o, h, k), h as u32, b),
                ) by {
                    assert(c@[k] == Node::Leaf(b));
                    let ok = octant_origin(o, h, k);
                    assert(leaves_of(c@[k], ok, h)[0] == (ok, h as u32, b));
                    lemma_leaf_of_child(c, o, size, k, (ok, h as u32, b));
                }
                (o, h, b)
            } else {
                let k = if !compact(c@[0]) {
                    0int
                } else if !compact(c@[1]) {
                    1int
                } else if !compact(c@[2]) {
                    2int
                } else if !compact(c@[3]) {
                    3int
                } else if !compact(c@[4]) {
                    4int
                } else if !compact(c@[5]) {
                    5int
                } else if !compact(c@[6]) {
                    6int
                } else {
                    7int
                };
                assert(!compact(c@[k]));
                lemma_child_shaped(c, size, k);
                let ok = octant_origin(o, h, k);
                assert(in_region(ok, h, ok));
                lemma_octant_point(o, size, k, ok);
                lemma_aligned_half(o.x as int, h);
                lemma_aligned_half(o.y as int, h);
                lemma_aligned_half(o.z as int, h);
                let w = lemma_uncompact_witness(c@[k], ok, h);
                assert forall|j: int| 0 <= j < 8 implies #[trigger] leaves_of(n, o, size).contains(
                    (octant_origin(w.0, w.1, j), w.1 as u32, w.2),
                ) by {
                    assert(leaves_of(c@[k], ok, h).contains((octant_origin(w.0, w.1, j), w.1 as u32, w.2)));
                    lemma_leaf_of_child(c, o, size, k, (octant_origin(w.0, w.1, j), w.1 as u32, w.2));
                }
                w
            }
        },
    }
}

/// Law: a tree of the right form is compact exactly when its leaves are as
/// merged as its blocks allow; so `set`, `remove`, `move_block`,
/// `fill_region` and `clear`, which keep trees compact, keep their leaves
/// merged.
pub proof fn law_merged_iff_compact(t: Octree)
    requires
        t.is_shaped(),
    ensures
        t.is_compact() <==> leaves_merged(t),
{
    if t.is_compact() {
        assert forall|q: IVec3, s: int, b: BlockType| !#[trigger] fills_mergeable_cube(t, q, s, b) by {
            if is_pow2(s) && fits(q, 2 * s) && (q.x as int) % (2 * s) == 0 && (q.y as int) % (2 * s) == 0 && (q.z as int)
                % (2 * s) == 0 {
                law_leaves_are_merged(t, q, s, b);
            }
        }
    } else {
        let o = IVec3 { x: 0, y: 0, z: 0 };
        assert(is_pow2(0x8000_0000)) by {
            reveal_with_fuel(is_pow2, 33);
        }
        lemma_pow2_le(t.size as int, 0x8000_0000);
        vstd::arithmetic::div_mod::lemma_small_mod(0, t.size as nat);
        let w = lemma_uncompact_witness(t.root, o, t.size as int);
        assert(fills_mergeable_cube(t, w.0, w.1, w.2));
    }
}

/// Law: a compact tree of the right form (every tree that `new` builds and
/// the writes change) lists as its leaves, and writes as its JSON, exactly
/// those of the most merged tree of its blocks (`canonical_leaves`,
/// `canonical_doc`): leaves in the order of octants 0 to 7, depth first.
pub proof fn law_merged_form(t: Octree)
    requires
        t.is_compact(),
        t.is_shaped(),
    ensures
        t.leaf_cubes() == canonical_leaves(|p: IVec3| t.block(p), IVec3 { x: 0, y: 0, z: 0 }, t.side() as int),
        t.json_doc() == canonical_doc(|p: IVec3| t.block(p), IVec3 { x: 0, y: 0, z: 0 }, t.side() as int),
{
    let o = IVec3 { x: 0, y: 0, z: 0 };
    let size = t.size as int;
    assert(is_pow2(0x8000_0000)) by {
        reveal_with_fuel(is_pow2, 33);
    }
    lemma_pow2_le(size, 0x8000_0000);
    lemma_canonical_form(t.root, o, size);
    lemma_canonical_agree(|p: IVec3| lookup(t.root, o, size, p), |p: IVec3| t.block(p), o, size);
}

/// Law: a compact tree of the right form (every tree that `new` builds and
/// the writes change) is determined by its blocks: two such trees of one side
/// that hold the same block at every position of the cube are made of the
/// same leaves in the same order, whatever writes built each of them.
pub proof fn law_compact_form_is_unique(t: Octree, u: Octree)
    requires
        t.side() == u.side(),
        t.side() <= i32::MAX,
        t.is_compact(),
        u.is_compact(),
        t.is_shaped(),
        u.is_shaped(),
        forall|p: IVec3| in_cube(t.side(), p) ==> #[trigger] t.block(p) == u.block(p),
    ensures
        t.leaf_cubes() == u.leaf_cubes(),
{
    let o = IVec3 { x: 0, y: 0, z: 0 };
    let size = t.size as int;
    assert forall|p: IVec3| in_region(o, size, p) implies #[trigger] lookup(t.root, o, size, p) == lookup(
        u.root,
        o,
        size,
        p,
    ) by {
        assert(in_cube(t.side(), p));
        assert(t.block(p) == u.block(p));
    }
    lemma_canonical(t.root, u.root, o, size);
    lemma_same_shape(t.root, u.root);
    assert(leaves_of(t.root, o, size) == leaves_of(u.root, o, size));
}

/// The tree that `v` describes holds, at each position, the block that
/// `json_block` reads from `v`.
proof fn lemma_parsed_blocks(v: JsonValue, n: Node, o: IVec3, s: int, p: IVec3)
    requires
        parses_to(v, n),
    ensures
        lookup(n, o, s, p) == json_block(v, o, s, p),
    decreases n,
{
    if let (JsonValue::Object(e), Node::Children(c)) = (v, n) {
        let ci = key_index(e@, "children"@);
        if let JsonValue::Array(a) = e@[ci].1 {
            let h = s / 2;
            let i = octant(o, h, p);
            assert(0 <= i < 8);
            assert(parses_to(a@[i], c@[i])) by {
                if i == 0 {
                } else if i == 1 {
                } else if i == 2 {
                } else if i == 3 {
                } else if i == 4 {
                } else if i == 5 {
                } else if i == 6 {
                } else {
                }
            }
            lemma_parsed_blocks(a@[i], c@[i], octant_origin(o, h, i), h, p);
        }
    }
}

/// The document of the JSON that `to_json` writes for `n`.
proof fn lemma_exact_view(v: JsonValue, n: Node)
    requires
        json_exact(v, n),
    ensures
        v@ == node_doc(n),
    decreases n,
{
    if let JsonValue::Object(e) = v {
        lemma_members_view(e@, 2);
        if let Node::Children(c) = n {
            if let JsonValue::Array(a) = e@[0].1 {
                lemma_items_view(a@, 8);
                lemma_exact_view(a@[0], c@[0]);
                lemma_exact_view(a@[1], c@[1]);
                lemma_exact_view(a@[2], c@[2]);
                lemma_exact_view(a@[3], c@[3]);
                lemma_exact_view(a@[4], c@[4]);
                lemma_exact_view(a@[5], c@[5]);
                lemma_exact_view(a@[6], c@[6]);
                lemma_exact_view(a@[7], c@[7]);
                assert(items_view(a@, a@.len() as int) =~= seq![
                    node_doc(c@[0]), node_doc(c@[1]), node_doc(c@[2]), node_doc(c@[3]),
                    node_doc(c@[4]), node_doc(c@[5]), node_doc(c@[6]), node_doc(c@[7]),
                ]);
            }
        }
        assert(members_view(e@, e@.len() as int) =~= seq![(e@[0].0@, json_view(e@[0].1)), (e@[1].0@, json_view(e@[1].1))]);
    }
}

/// A document whose view is that of the JSON of a well-formed tree is that
/// JSON.
proof fn lemma_view_exact(v: JsonValue, n: Node)
    requires
        node_wf(n),
        v@ == node_doc(n),
    ensures
        json_exact(v, n),
    decreases n,
{
    if let JsonValue::Object(e) = v {
        lemma_members_view(e@, e@.len() as int);
        assert(e@.len() == 2);
        assert(json_view(e@[0].1) == node_doc(n)->Object_0[0].1);
        assert(json_view(e@[1].1) == node_doc(n)->Object_0[1].1);
        if let Node::Children(c) = n {
            lemma_child_wf(c, 0);
            if let JsonValue::Array(a) = e@[0].1 {
                lemma_items_view(a@, a@.len() as int);
                assert(a@.len() == 8);
                lemma_child_wf(c, 1);
                lemma_child_wf(c, 2);
                lemma_child_wf(c, 3);
                lemma_child_wf(c, 4);
                lemma_child_wf(c, 5);
                lemma_child_wf(c, 6);
                lemma_child_wf(c, 7);
                lemma_view_exact(a@[0], c@[0]);
                lemma_view_exact(a@[1], c@[1]);
                lemma_view_exact(a@[2], c@[2]);
                lemma_view_exact(a@[3], c@[3]);
                lemma_view_exact(a@[4], c@[4]);
                lemma_view_exact(a@[5], c@[5]);
                lemma_view_exact(a@[6], c@[6]);
                lemma_view_exact(a@[7], c@[7]);
            }
        }
    }
}

/// How many times `size` halves before it reaches one.
spec fn levels(size: int) -> nat
    decreases size,
{
    if size <= 1 {
        0
    } else {
        1 + levels(size / 2)
    }
}

/// `2` to the power `k`.
spec fn two_to(k: nat) -> int
    decreases k,
{
    if k == 0 {
        1
    } else {
        2 * two_to((k - 1) as nat)
    }
}

proof fn lemma_levels_below(n: int, k: nat)
    requires
        n < two_to(k),
    ensures
        levels(n) <= k,
    decreases k,
{
    if n > 1 && k > 0 {
        lemma_levels_below(n / 2, (k - 1) as nat);
    }
}

/// The larger of two numbers.
pub open spec fn max_nat(a: nat, b: nat) -> nat {
    if a >= b {
        a
    } else {
        b
    }
}

/// The number of split nodes on the longest path from the root of `n` down
/// to a leaf.
spec fn node_depth(n: Node) -> nat
    decreases n,
{
    match n {
        Node::Leaf(_) => 0,
        Node::Children(c) => if c.len() == 8 {
            1 + max_nat(
                max_nat(max_nat(node_depth(c@[0]), node_depth(c@[1])), max_nat(node_depth(c@[2]), node_depth(c@[3]))),
                max_nat(max_nat(node_depth(c@[4]), node_depth(c@[5])), max_nat(node_depth(c@[6]), node_depth(c@[7]))),
            )
        } else {
            0
        },
    }
}

/// Each child of a split node is less deep than the node.
proof fn lemma_child_depth(c: Vec<Node>, i: int)
    requires
        c.len() == 8,
        0 <= i < 8,
    ensures
        node_depth(c@[i]) + 1 <= node_depth(Node::Children(c)),
{
}

/// A tree of the right form is at most as deep as its side halves.
proof fn lemma_shaped_depth(n: Node, size: int)
    requires
        shaped(n, size),
    ensures
        node_depth(n) <= levels(size),
    decreases n,
{
    if let Node::Children(c) = n {
        let h = size / 2;
        lemma_child_shaped(c, size, 0);
        lemma_child_shaped(c, size, 1);
        lemma_child_shaped(c, size, 2);
        lemma_child_shaped(c, size, 3);
        lemma_child_shaped(c, size, 4);
        lemma_child_shaped(c, size, 5);
        lemma_child_shaped(c, size, 6);
        lemma_child_shaped(c, size, 7);
        lemma_shaped_depth(c@[0], h);
        lemma_shaped_depth(c@[1], h);
        lemma_shaped_depth(c@[2], h);
        lemma_shaped_depth(c@[3], h);
        lemma_shaped_depth(c@[4], h);
        lemma_shaped_depth(c@[5], h);
        lemma_shaped_depth(c@[6], h);
        lemma_shaped_depth(c@[7], h);
    }
}

/// The JSON of a tree is one that `serde_json` reads back unchanged, given
/// enough levels of nesting: two per split node on the way down, one for
/// the leaf.
proof fn lemma_doc_canonical(n: Node, b: nat)
    requires
        node_wf(n),
        b >= 2 * node_depth(n) + 1,
    ensures
        canonical(node_doc(n), b),
    decreases n,
{
    reveal_strlit("children");
    reveal_strlit("type");
    assert(chars_before("children"@, "type"@));
    let e = node_doc(n)->Object_0;
    match n {
        Node::Leaf(_) => {
            assert forall|i: int, j: int| 0 <= i < j < e.len() implies chars_before(#[trigger] e[i].0, #[trigger] e[j].0) by {}
            assert forall|i: int| 0 <= i < e.len() implies canonical(#[trigger] e[i].1, (b - 1) as nat) by {}
        },
        Node::Children(c) => {
            lemma_child_wf(c, 0);
            let kids = e[0].1->Array_0;
            assert forall|i: int| 0 <= i < 8 implies canonical(#[trigger] kids[i], (b - 2) as nat) by {
                lemma_child_wf(c, i);
                lemma_child_depth(c, i);
                lemma_doc_canonical(c@[i], (b - 2) as nat);
            }
            assert(canonical(e[0].1, (b - 1) as nat));
            assert forall|i: int, j: int| 0 <= i < j < e.len() implies chars_before(#[trigger] e[i].0, #[trigger] e[j].0) by {}
            assert forall|i: int| 0 <= i < e.len() implies canonical(#[trigger] e[i].1, (b - 1) as nat) by {}
        },
    }
}

/// The JSON of a tree describes a tree: `from_json` and `load_text` accept
/// it.
pub proof fn lemma_json_form_is_accepted(t: Octree, v: JsonValue)
    requires
        t.json_form(v),
    ensures
        json_tree_ok(v),
{
    lemma_exact_parses(v, t.root);
}

/// The tree that `v` describes is as deep as `v` splits.
proof fn lemma_parsed_depth(v: JsonValue, n: Node)
    requires
        parses_to(v, n),
    ensures
        node_depth(n) == json_tree_depth(v),
    decreases n,
{
    if let (JsonValue::Object(e), Node::Children(c)) = (v, n) {
        let ci = key_index(e@, "children"@);
        if let JsonValue::Array(a) = e@[ci].1 {
            lemma_parsed_depth(a@[0], c@[0]);
            lemma_parsed_depth(a@[1], c@[1]);
            lemma_parsed_depth(a@[2], c@[2]);
            lemma_parsed_depth(a@[3], c@[3]);
            lemma_parsed_depth(a@[4], c@[4]);
            lemma_parsed_depth(a@[5], c@[5]);
            lemma_parsed_depth(a@[6], c@[6]);
            lemma_parsed_depth(a@[7], c@[7]);
        }
    }
}

/// Law: what `from_json` reads from the output of `to_json` is the tree that
/// was written: the description is accepted, and the tree read holds the
/// same block at every position, is made of the same leaves in the same
/// order, and is compact, and of the right form, exactly when the tree
/// written was.
pub proof fn law_json_round_trip(written: Octree, v: JsonValue, read: Octree)
    requires
        written.json_form(v),
        read.parsed_from(v),
        read.side() == written.side(),
    ensures
        json_tree_ok(v),
        forall|p: IVec3| #[trigger] read.block(p) == written.block(p),
        read.leaf_cubes() == written.leaf_cubes(),
        read.is_compact() == written.is_compact(),
        read.is_shaped() == written.is_shaped(),
{
    lemma_exact_parses(v, written.root);
    lemma_parse_unique(v, read.root, written.root);
    lemma_same_shape(read.root, written.root);
    assert forall|p: IVec3| #[trigger] read.block(p) == written.block(p) by {
        lemma_same_lookup(read.root, written.root, IVec3 { x: 0, y: 0, z: 0 }, read.size as int, p);
    }
    assert(leaves_of(read.root, IVec3 { x: 0, y: 0, z: 0 }, read.size as int) == leaves_of(
        written.root,
        IVec3 { x: 0, y: 0, z: 0 },
        written.size as int,
    ));
}

proof fn lemma_index_bits(index: usize)
    requires
        index < 8,
    ensures
        ((index & 1) == 0) == (index % 2 == 0),
        ((index & 2) == 0) == ((index / 2) % 2 == 0),
        ((index & 4) == 0) == ((index / 4) % 2 == 0),
{
    assert(((index & 1) == 0) == (index % 2 == 0)) by (bit_vector)
        requires
            index < 8,
    ;
    assert(((index & 2) == 0) == ((index / 2) % 2 == 0)) by (bit_vector)
        requires
            index < 8,
    ;
    assert(((index & 4) == 0) == ((index / 4) % 2 == 0)) by (bit_vector)
        requires
            index < 8,
    ;
}

/// The classic bit test for powers of two agrees with `is_pow2`.
proof fn lemma_pow2_bits(x: u32)
    ensures
        (x != 0 && (x & ((x - 1) as u32)) == 0) == is_pow2(x as int),
    decreases x,
{
    if x == 0 {
    } else if x == 1 {
        assert((1u32 & 0u32) == 0) by (bit_vector);
    } else if x % 2 == 0 {
        let h: u32 = x / 2;
        assert(((x & ((x - 1) as u32)) == 0) == ((h & ((h - 1) as u32)) == 0)) by (bit_vector)
            requires
                x % 2 == 0,
                x > 1,
                h == x / 2,
        ;
        lemma_pow2_bits(h);
    } else {
        assert((x & ((x - 1) as u32)) != 0) by (bit_vector)
            requires
                x % 2 == 1,
                x > 1,
        ;
    }
}

} // verus!
