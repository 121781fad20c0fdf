//! The saved map: the seed of the terrain and the blocks changed on it, as
//! JSON.

use vstd::prelude::*;

use crate::json::{
    JsonNumber, JsonValue, JsonView, NumberView, canonical, chars_before, items_view, json_get, json_of_text, json_text,
    json_view, key_index, lemma_items_view, lemma_members_view, members_view, number_as_i64, number_as_u64, number_view,
    parse_json_text, text_of_json,
};
use crate::world::chunk::Chunk;
use crate::world::octree::{in_cube, is_pow2, lemma_cell_is_voxel, lemma_cell_of_itself, same_cell};
use crate::world::position::IVec3;
use crate::world::voxel::{BlockType, block_name, block_named, lemma_block_name_round_trip};

verus! {

/// A JSON number for an `i32`, as JSON writers give it.
pub open spec fn int_number(x: i32) -> JsonNumber {
    if x < 0 {
        JsonNumber::NegInt(x as i64)
    } else {
        JsonNumber::PosInt(x as u64)
    }
}

/// The integer member `key` of an object, where it fits in an `i64`.
pub open spec fn member_i64(v: JsonValue, key: Seq<char>) -> Option<i64> {
    match json_get(v, key) {
        Some(JsonValue::Number(n)) => number_as_i64(n),
        _ => None,
    }
}

/// The text of the string member `key` of an object.
pub open spec fn member_str(v: JsonValue, key: Seq<char>) -> Option<Seq<char>> {
    match json_get(v, key) {
        Some(JsonValue::String(s)) => Some(s@),
        _ => None,
    }
}

/// The change that an entry of the list of modifications describes: the
/// position (each coordinate truncated to an `i32`) and the block named by
/// `type`; nothing when a member is missing or of the wrong kind.
pub open spec fn modification_of(m: JsonValue) -> Option<(IVec3, BlockType)> {
    match (member_i64(m, "x"@), member_i64(m, "y"@), member_i64(m, "z"@), member_str(m, "type"@)) {
        (Some(x), Some(y), Some(z), Some(t)) => Some(
            (IVec3 { x: x as i32, y: y as i32, z: z as i32 }, block_named(t)),
        ),
        _ => None,
    }
}

/// The changes that a list of entries describes, in order, entries that
/// describe none left out.
pub open spec fn modifications_of(list: Seq<JsonValue>) -> Seq<(IVec3, BlockType)>
    decreases list.len(),
{
    if list.len() == 0 {
        Seq::empty()
    } else {
        let rest = modifications_of(list.drop_last());
        match modification_of(list.last()) {
            Some(m) => rest.push(m),
            None => rest,
        }
    }
}

/// What a saved map describes: the seed (its low 32 bits) and the list of
/// changes, which is empty when `modifications` is missing or not an array;
/// nothing when `seed` is missing or not a non-negative integer.
pub open spec fn saved_map_of(v: JsonValue) -> Option<(u32, Seq<(IVec3, BlockType)>)> {
    match json_get(v, "seed"@) {
        Some(JsonValue::Number(n)) => match number_as_u64(n) {
            Some(s) => Some(
                (
                    s as u32,
                    match json_get(v, "modifications"@) {
                        Some(JsonValue::Array(a)) => modifications_of(a@),
                        _ => Seq::empty(),
                    },
                ),
            ),
            None => None,
        },
        _ => None,
    }
}

/// `v` is the JSON that `map_to_json` writes for one change: an object with
/// the members `type` (the block's name), `x`, `y` and `z`.
pub open spec fn modification_json(v: JsonValue, pos: (i32, i32, i32), block: BlockType) -> bool {
    &&& v matches JsonValue::Object(e) && {
        &&& e.len() == 4
        &&& e@[0].0@ == "type"@
        &&& e@[0].1 matches JsonValue::String(s) && s@ == block_name(block)
        &&& e@[1].0@ == "x"@ && e@[1].1 == JsonValue::Number(int_number(pos.0))
        &&& e@[2].0@ == "y"@ && e@[2].1 == JsonValue::Number(int_number(pos.1))
        &&& e@[3].0@ == "z"@ && e@[3].1 == JsonValue::Number(int_number(pos.2))
    }
}

/// `v` is the JSON that `map_to_json` writes for a map: an object with the
/// members `modifications` (one object per change, in order) and `seed`.
pub open spec fn map_json(v: JsonValue, seed: u32, modifications: Seq<((i32, i32, i32), BlockType)>) -> bool {
    &&& v matches JsonValue::Object(e) && {
        &&& e.len() == 2
        &&& e@[0].0@ == "modifications"@
        &&& e@[0].1 matches JsonValue::Array(a) && {
            &&& a.len() == modifications.len()
            &&& forall|i: int|
                0 <= i < a.len() ==> modification_json(#[trigger] a@[i], modifications[i].0, modifications[i].1)
        }
        &&& e@[1].0@ == "seed"@ && e@[1].1 == JsonValue::Number(JsonNumber::PosInt(seed as u64))
    }
}

/// The document that `map_to_json` writes for one change.
pub open spec fn modification_doc(m: ((i32, i32, i32), BlockType)) -> JsonView {
    JsonView::Object(
        seq![
            ("type"@, JsonView::String(block_name(m.1))),
            ("x"@, JsonView::Number(number_view(int_number(m.0.0)))),
            ("y"@, JsonView::Number(number_view(int_number(m.0.1)))),
            ("z"@, JsonView::Number(number_view(int_number(m.0.2)))),
        ],
    )
}

/// The document that `map_to_json` writes for a map.
pub open spec fn map_doc(seed: u32, modifications: Seq<((i32, i32, i32), BlockType)>) -> JsonView {
    JsonView::Object(
        seq![
            ("modifications"@, JsonView::Array(modifications.map_values(|m: ((i32, i32, i32), BlockType)| modification_doc(m)))),
            ("seed"@, JsonView::Number(NumberView::PosInt(seed as u64))),
        ],
    )
}

proof fn lemma_modification_view(v: JsonValue, m: ((i32, i32, i32), BlockType))
    requires
        modification_json(v, m.0, m.1),
    ensures
        v@ == modification_doc(m),
{
    if let JsonValue::Object(e) = v {
        lemma_members_view(e@, 4);
        assert(members_view(e@, e@.len() as int) =~= seq![
            (e@[0].0@, json_view(e@[0].1)), (e@[1].0@, json_view(e@[1].1)),
            (e@[2].0@, json_view(e@[2].1)), (e@[3].0@, json_view(e@[3].1))]);
    }
}

proof fn lemma_view_modification(v: JsonValue, m: ((i32, i32, i32), BlockType))
    requires
        v@ == modification_doc(m),
    ensures
        modification_json(v, m.0, m.1),
{
    if let JsonValue::Object(e) = v {
        lemma_members_view(e@, e@.len() as int);
        assert(e@.len() == 4);
        assert(json_view(e@[0].1) == modification_doc(m)->Object_0[0].1);
        assert(json_view(e@[1].1) == modification_doc(m)->Object_0[1].1);
        assert(json_view(e@[2].1) == modification_doc(m)->Object_0[2].1);
        assert(json_view(e@[3].1) == modification_doc(m)->Object_0[3].1);
    }
}

/// The document of the JSON of a map.
proof fn lemma_map_view(v: JsonValue, seed: u32, modifications: Seq<((i32, i32, i32), BlockType)>)
    requires
        map_json(v, seed, modifications),
    ensures
        v@ == map_doc(seed, modifications),
{
    if let JsonValue::Object(e) = v {
        lemma_members_view(e@, 2);
        if let JsonValue::Array(a) = e@[0].1 {
            lemma_items_view(a@, a@.len() as int);
            assert forall|i: int| 0 <= i < a@.len() implies #[trigger] items_view(a@, a@.len() as int)[i]
                == modification_doc(modifications[i]) by {
                lemma_modification_view(a@[i], modifications[i]);
            }
            assert(items_view(a@, a@.len() as int) =~= modifications.map_values(
                |m: ((i32, i32, i32), BlockType)| modification_doc(m),
            ));
        }
        assert(members_view(e@, e@.len() as int) =~= seq![(e@[0].0@, json_view(e@[0].1)), (e@[1].0@, json_view(e@[1].1))]);
    }
}

/// A document whose view is that of the JSON of a map is that JSON.
proof fn lemma_view_map(v: JsonValue, seed: u32, modifications: Seq<((i32, i32, i32), BlockType)>)
    requires
        v@ == map_doc(seed, modifications),
    ensures
        map_json(v, seed, modifications),
{
    if let JsonValue::Object(e) = v {
        lemma_members_view(e@, e@.len() as int);
        assert(e@.len() == 2);
        assert(json_view(e@[0].1) == map_doc(seed, modifications)->Object_0[0].1);
        assert(json_view(e@[1].1) == map_doc(seed, modifications)->Object_0[1].1);
        if let JsonValue::Array(a) = e@[0].1 {
            lemma_items_view(a@, a@.len() as int);
            assert(a@.len() == modifications.len());
            assert forall|i: int| 0 <= i < a.len() implies modification_json(
                #[trigger] a@[i],
                modifications[i].0,
                modifications[i].1,
            ) by {
                assert(items_view(a@, a@.len() as int)[i] == json_view(a@[i]));
                lemma_view_modification(a@[i], modifications[i]);
            }
        }
    }
}

/// The names of the members of a change come in increasing order.
proof fn lemma_change_names_sorted()
    ensures
        chars_before("type"@, "x"@) && chars_before("type"@, "y"@) && chars_before("type"@, "z"@),
        chars_before("x"@, "y"@) && chars_before("x"@, "z"@) && chars_before("y"@, "z"@),
        chars_before("modifications"@, "seed"@),
{
    reveal_strlit("modifications");
    reveal_strlit("seed");
    reveal_strlit("type");
    reveal_strlit("x");
    reveal_strlit("y");
    reveal_strlit("z");
}

/// The document of a change is one that `serde_json` reads back unchanged.
proof fn lemma_modification_doc_canonical(m: ((i32, i32, i32), BlockType), d: nat)
    requires
        d >= 1,
    ensures
        canonical(modification_doc(m), d),
{
    lemma_change_names_sorted();
    let e = modification_doc(m)->Object_0;
    assert forall|a: int, b: int| 0 <= a < b < e.len() implies chars_before(#[trigger] e[a].0, #[trigger] e[b].0) by {
        if a == 0 && b == 1 {
        } else if a == 0 && b == 2 {
        } else if a == 0 && b == 3 {
        } else if a == 1 && b == 2 {
        } else if a == 1 && b == 3 {
        } else {
        }
    }
    assert forall|i: int| 0 <= i < e.len() implies canonical(#[trigger] e[i].1, (d - 1) as nat) by {
        if i == 0 {
        } else if i == 1 {
        } else if i == 2 {
        } else {
        }
    }
}

/// The document of a map is one that `serde_json` reads back unchanged.
proof fn lemma_map_doc_canonical(seed: u32, modifications: Seq<((i32, i32, i32), BlockType)>)
    ensures
        canonical(map_doc(seed, modifications), 100),
{
    lemma_change_names_sorted();
    let e = map_doc(seed, modifications)->Object_0;
    let list = modifications.map_values(|m: ((i32, i32, i32), BlockType)| modification_doc(m));
    assert forall|i: int| 0 <= i < list.len() implies canonical(#[trigger] list[i], 98) by {
        lemma_modification_doc_canonical(modifications[i], 98);
    }
    assert(e[0].1 == JsonView::Array(list));
    assert(canonical(e[0].1, 99));
    assert forall|a: int, b: int| 0 <= a < b < e.len() implies chars_before(#[trigger] e[a].0, #[trigger] e[b].0) by {}
    assert forall|i: int| 0 <= i < e.len() implies canonical(#[trigger] e[i].1, 99) by {}
}

fn number_from_i32(x: i32) -> (r: JsonNumber)
    ensures
        r == int_number(x),
{
    if x < 0 {
        JsonNumber::NegInt(x as i64)
    } else {
        JsonNumber::PosInt(x as u64)
    }
}

/// The saved form of a map: its seed and the changes made to it.
pub fn map_to_json(seed: u32, modifications: &Vec<((i32, i32, i32), BlockType)>) -> (r: JsonValue)
    ensures
        map_json(r, seed, modifications@),
        r@ == map_doc(seed, modifications@),
{
    let mut mods_json: Vec<JsonValue> = Vec::new();
    let mut i: usize = 0;
    while i < modifications.len()
        invariant
            0 <= i <= modifications.len(),
            mods_json.len() == i,
            forall|j: int|
                0 <= j < i ==> modification_json(
                    #[trigger] mods_json@[j],
                    modifications@[j].0,
                    modifications@[j].1,
                ),
        decreases modifications.len() - i,
    {
        let ((x, y, z), block) = modifications[i];
        let mut entry: Vec<(String, JsonValue)> = Vec::new();
        entry.push((String::from_str("type"), JsonValue::String(String::from_str(block.name()))));
        entry.push((String::from_str("x"), JsonValue::Number(number_from_i32(x))));
        entry.push((String::from_str("y"), JsonValue::Number(number_from_i32(y))));
        entry.push((String::from_str("z"), JsonValue::Number(number_from_i32(z))));
        mods_json.push(JsonValue::Object(entry));
        i += 1;
    }
    let mut entries: Vec<(String, JsonValue)> = Vec::new();
    entries.push((String::from_str("modifications"), JsonValue::Array(mods_json)));
    entries.push((String::from_str("seed"), JsonValue::Number(JsonNumber::PosInt(seed as u64))));
    let r = JsonValue::Object(entries);
    proof {
        lemma_map_view(r, seed, modifications@);
    }
    r
}

/// The JSON text of a saved map, as `map_to_json` describes it and
/// `serde_json` writes it; reading the text back gives the seed and the
/// changes, in order.
pub fn map_to_text(seed: u32, modifications: &Vec<((i32, i32, i32), BlockType)>) -> (r: String)
    ensures
        r@ == text_of_json(map_doc(seed, modifications@)),
        json_of_text(r@) is Some && saved_map_of(json_of_text(r@).unwrap()) == Some(
            (seed, as_positions(modifications@)),
        ),
{
    let v = map_to_json(seed, modifications);
    let r = json_text(&v);
    proof {
        lemma_map_doc_canonical(seed, modifications@);
        let w = json_of_text(r@).unwrap();
        lemma_view_map(w, seed, modifications@);
        law_map_round_trip(w, seed, modifications@);
    }
    r
}

fn modification_from_json(m: &JsonValue) -> (r: Option<(IVec3, BlockType)>)
    ensures
        r == modification_of(*m),
{
    let x = match m.get("x") {
        Some(v) => v.as_i64(),
        None => None,
    };
    let y = match m.get("y") {
        Some(v) => v.as_i64(),
        None => None,
    };
    let z = match m.get("z") {
        Some(v) => v.as_i64(),
        None => None,
    };
    let t = match m.get("type") {
        Some(JsonValue::String(s)) => Some(s),
        _ => None,
    };
    match (x, y, z, t) {
        (Some(x), Some(y), Some(z), Some(t_str)) => {
            let block = BlockType::from_name(t_str);
            Some((IVec3 { x: x as i32, y: y as i32, z: z as i32 }, block))
        },
        _ => None,
    }
}

/// The seed and the changes that a saved map holds; `None` when the seed
/// is missing or not a non-negative integer. Entries of the list of changes
/// that lack a member are skipped.
pub fn parse_map(v: &JsonValue) -> (r: Option<(u32, Vec<(IVec3, BlockType)>)>)
    ensures
        match saved_map_of(*v) {
            Some((seed, mods)) => r matches Some((s, m)) && s == seed && m@ == mods,
            None => r is None,
        },
{
    let seed = match v.get("seed") {
        Some(s) => match s.as_u64() {
            Some(n) => n as u32,
            None => {
                return None;
            },
        },
        None => {
            return None;
        },
    };
    let mut mods: Vec<(IVec3, BlockType)> = Vec::new();
    match v.get("modifications") {
        Some(JsonValue::Array(list)) => {
            let mut i: usize = 0;
            while i < list.len()
                invariant
                    0 <= i <= list.len(),
                    mods@ == modifications_of(list@.take(i as int)),
                decreases list.len() - i,
            {
                let m = modification_from_json(&list[i]);
                proof {
                    assert(list@.take(i + 1).drop_last() =~= list@.take(i as int));
                    assert(list@.take(i + 1).last() == list@[i as int]);
                }
                match m {
                    Some(entry) => mods.push(entry),
                    None => {},
                }
                i += 1;
            }
            proof {
                assert(list@.take(list.len() as int) =~= list@);
            }
        },
        _ => {},
    }
    Some((seed, mods))
}

/// The seed and the changes that the saved map in the JSON text `text`
/// holds: what `parse_map` reads from the document `serde_json` finds in
/// the text, and `None` where `serde_json` refuses the text.
pub fn load_map_text(text: &str) -> (r: Option<(u32, Vec<(IVec3, BlockType)>)>)
    ensures
        match json_of_text(text@) {
            None => r is None,
            Some(v) => match saved_map_of(v) {
                Some((seed, mods)) => r matches Some((s, m)) && s == seed && m@ == mods,
                None => r is None,
            },
        },
{
    match parse_json_text(text) {
        Some(v) => parse_map(&v),
        None => None,
    }
}

/// The changes of a map as positions and blocks.
pub open spec fn as_positions(modifications: Seq<((i32, i32, i32), BlockType)>) -> Seq<(IVec3, BlockType)> {
    modifications.map_values(|m: ((i32, i32, i32), BlockType)| (IVec3 { x: m.0.0, y: m.0.1, z: m.0.2 }, m.1))
}

proof fn lemma_modification_round_trip(v: JsonValue, pos: (i32, i32, i32), block: BlockType)
    requires
        modification_json(v, pos, block),
    ensures
        modification_of(v) == Some((IVec3 { x: pos.0, y: pos.1, z: pos.2 }, block)),
{
    reveal_strlit("type");
    reveal_strlit("x");
    reveal_strlit("y");
    reveal_strlit("z");
    lemma_block_name_round_trip(block);
    if let JsonValue::Object(e) = v {
        let s = e@;
        assert("type"@[0] != "x"@[0] && "type"@[0] != "y"@[0] && "type"@[0] != "z"@[0]);
        assert("x"@[0] != "y"@[0] && "x"@[0] != "z"@[0] && "y"@[0] != "z"@[0]);
        assert(s[0].0@ != "x"@ && s[0].0@ != "y"@ && s[0].0@ != "z"@);
        assert(s[1].0@ != "y"@ && s[1].0@ != "z"@);
        assert(s[2].0@ != "z"@);
        assert(s.drop_first()[0] == s[1]);
        assert(s.drop_first().drop_first()[0] == s[2]);
        assert(s.drop_first().drop_first().drop_first()[0] == s[3]);
        reveal_with_fuel(key_index, 4);
        assert(key_index(s, "type"@) == 0);
        assert(key_index(s, "x"@) == 1);
        assert(key_index(s, "y"@) == 2);
        assert(key_index(s, "z"@) == 3);
    }
}

proof fn lemma_modifications_round_trip(list: Seq<JsonValue>, modifications: Seq<((i32, i32, i32), BlockType)>)
    requires
        list.len() == modifications.len(),
        forall|i: int| 0 <= i < list.len() ==> modification_json(#[trigger] list[i], modifications[i].0, modifications[i].1),
    ensures
        modifications_of(list) == as_positions(modifications),
    decreases list.len(),
{
    if list.len() > 0 {
        let n = list.len() - 1;
        lemma_modifications_round_trip(list.drop_last(), modifications.drop_last());
        lemma_modification_round_trip(list[n], modifications[n].0, modifications[n].1);
        assert(as_positions(modifications) =~= as_positions(modifications.drop_last()).push(
            (IVec3 { x: modifications[n].0.0, y: modifications[n].0.1, z: modifications[n].0.2 }, modifications[n].1),
        ));
    } else {
        assert(as_positions(modifications) =~= Seq::empty());
    }
}

/// Law: reading back a saved map gives the seed and the changes that were
/// saved, in the order they were saved.
pub proof fn law_map_round_trip(v: JsonValue, seed: u32, modifications: Seq<((i32, i32, i32), BlockType)>)
    requires
        map_json(v, seed, modifications),
    ensures
        saved_map_of(v) == Some((seed, as_positions(modifications))),
{
    reveal_strlit("modifications");
    reveal_strlit("seed");
    if let JsonValue::Object(e) = v {
        let s = e@;
        assert(s[0].0@ != "seed"@) by {
            assert(s[0].0@[0] != "seed"@[0]);
        }
        assert(s.drop_first()[0] == s[1]);
        reveal_with_fuel(key_index, 2);
        assert(key_index(s, "seed"@) == 1);
        assert(key_index(s, "modifications"@) == 0);
        if let JsonValue::Array(a) = s[0].1 {
            lemma_modifications_round_trip(a@, modifications);
        }
    }
}

/// The block of the last change in `modifications` at position `p`, if any.
pub open spec fn last_change(modifications: Seq<(IVec3, BlockType)>, p: IVec3) -> Option<BlockType>
    decreases modifications.len(),
{
    if modifications.len() == 0 {
        None
    } else if modifications.last().0 == p {
        Some(modifications.last().1)
    } else {
        last_change(modifications.drop_last(), p)
    }
}

/// The block of the last change in `modifications` that lands in the cube
/// of side `side` and in the cell of `p` (see `same_cell`), if any.
pub open spec fn last_change_in_cell(modifications: Seq<(IVec3, BlockType)>, side: u32, p: IVec3) -> Option<BlockType>
    decreases modifications.len(),
{
    if modifications.len() == 0 {
        None
    } else if in_cube(side, modifications.last().0) && same_cell(
        IVec3 { x: 0, y: 0, z: 0 },
        side as int,
        modifications.last().0,
        p,
    ) {
        Some(modifications.last().1)
    } else {
        last_change_in_cell(modifications.drop_last(), side, p)
    }
}

/// In a cube whose side is a power of two, the last change that lands in
/// the cell of a position of the cube is the last change at that position.
proof fn lemma_cells_of_changes(modifications: Seq<(IVec3, BlockType)>, side: u32, p: IVec3)
    requires
        is_pow2(side as int),
        in_cube(side, p),
    ensures
        last_change_in_cell(modifications, side, p) == last_change(modifications, p),
    decreases modifications.len(),
{
    if modifications.len() > 0 {
        let o = IVec3 { x: 0, y: 0, z: 0 };
        let m = modifications.last().0;
        lemma_cell_of_itself(o, side as int, p);
        if in_cube(side, m) && same_cell(o, side as int, m, p) {
            lemma_cell_is_voxel(o, side as int, m, p);
        }
        lemma_cells_of_changes(modifications.drop_last(), side, p);
    }
}

/// Replays the changes of a saved map on a chunk, in order; a change at a
/// position outside the chunk is ignored, and a change reaches the cell of
/// its position (see `written`), which in a cube whose side is a power of
/// two is that position alone. The chunk becomes dirty when a change lands
/// in it.
pub fn apply_modifications(chunk: &mut Chunk, modifications: &Vec<(IVec3, BlockType)>)
    ensures
        final(chunk).chunk_pos == old(chunk).chunk_pos,
        final(chunk).octree.side() == old(chunk).octree.side(),
        old(chunk).octree.is_compact() ==> final(chunk).octree.is_compact(),
        old(chunk).octree.is_shaped() ==> final(chunk).octree.is_shaped(),
        final(chunk).dirty == (old(chunk).dirty || exists|i: int|
            0 <= i < modifications.len() && in_cube(old(chunk).octree.side(), #[trigger] modifications@[i].0)),
        forall|p: IVec3|
            #[trigger] final(chunk).octree.block(p) == match last_change_in_cell(
                modifications@,
                old(chunk).octree.side(),
                p,
            ) {
                Some(b) => b,
                None => old(chunk).octree.block(p),
            },
        is_pow2(old(chunk).octree.side() as int) ==> forall|p: IVec3|
            in_cube(old(chunk).octree.side(), p) ==> #[trigger] final(chunk).octree.block(p) == match last_change(
                modifications@,
                p,
            ) {
                Some(b) => b,
                None => old(chunk).octree.block(p),
            },
{
    let ghost start = *chunk;
    let ghost side = chunk.octree.side();
    let mut i: usize = 0;
    while i < modifications.len()
        invariant
            0 <= i <= modifications.len(),
            chunk.chunk_pos == start.chunk_pos,
            chunk.octree.side() == side,
            side == start.octree.side(),
            start.octree.is_compact() ==> chunk.octree.is_compact(),
            start.octree.is_shaped() ==> chunk.octree.is_shaped(),
            chunk.dirty == (start.dirty || exists|j: int| 0 <= j < i && in_cube(side, #[trigger] modifications@[j].0)),
            forall|p: IVec3|
                #[trigger] chunk.octree.block(p) == match last_change_in_cell(
                    modifications@.take(i as int),
                    side,
                    p,
                ) {
                    Some(b) => b,
                    None => start.octree.block(p),
                },
        decreases modifications.len() - i,
    {
        let (pos, block) = modifications[i];
        let ghost before = *chunk;
        let _ = chunk.set_local(pos, block);
        proof {
            let pre = modifications@.take(i as int);
            let post = modifications@.take(i + 1);
            assert(post.drop_last() =~= pre);
            assert(post.last() == (pos, block));
            assert forall|p: IVec3| #[trigger] chunk.octree.block(p) == match last_change_in_cell(post, side, p) {
                Some(b) => b,
                None => start.octree.block(p),
            } by {
                assert(chunk.octree.block(p) == if in_cube(side, pos) && same_cell(
                    IVec3 { x: 0, y: 0, z: 0 },
                    side as int,
                    pos,
                    p,
                ) {
                    block
                } else {
                    before.octree.block(p)
                });
            }
            let e_old = exists|j: int| 0 <= j < i && in_cube(side, #[trigger] modifications@[j].0);
            let e_new = exists|j: int| 0 <= j < i + 1 && in_cube(side, #[trigger] modifications@[j].0);
            assert(e_new == (e_old || in_cube(side, pos))) by {
                if e_new {
                    let j = choose|j: int| 0 <= j < i + 1 && in_cube(side, #[trigger] modifications@[j].0);
                    if j < i {
                        assert(e_old);
                    }
                }
                if in_cube(side, pos) {
                    assert(in_cube(side, modifications@[i as int].0));
                }
            }
        }
        i += 1;
    }
    proof {
        assert(modifications@.take(modifications.len() as int) =~= modifications@);
        if is_pow2(side as int) {
            assert forall|p: IVec3| in_cube(side, p) implies #[trigger] chunk.octree.block(p) == match last_change(
                modifications@,
                p,
            ) {
                Some(b) => b,
                None => start.octree.block(p),
            } by {
                lemma_cells_of_changes(modifications@, side, p);
            }
        }
    }
}

} // verus!
