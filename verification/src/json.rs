use vstd::prelude::*;

verus! {

/// A JSON number as the library reads it: integers exactly, other numbers
/// by their decimal text.
pub enum JsonNumber {
    PosInt(u64),
    NegInt(i64),
    Float(String),
}

/// A JSON document. An object keeps its members in order; a key that
/// occurs twice is looked up at its first occurrence.
pub enum JsonValue {
    Null,
    Bool(bool),
    Number(JsonNumber),
    String(String),
    Array(Vec<JsonValue>),
    Object(Vec<(String, JsonValue)>),
}

/// What a JSON number is: an integer, or the characters of its text.
pub ghost enum NumberView {
    PosInt(u64),
    NegInt(i64),
    Float(Seq<char>),
}

/// What a JSON document is, with its strings as characters: the view of a
/// `JsonValue`.
pub ghost enum JsonView {
    Null,
    Bool(bool),
    Number(NumberView),
    String(Seq<char>),
    Array(Seq<JsonView>),
    Object(Seq<(Seq<char>, JsonView)>),
}

/// The view of a number.
pub open spec fn number_view(n: JsonNumber) -> NumberView {
    match n {
        JsonNumber::PosInt(u) => NumberView::PosInt(u),
        JsonNumber::NegInt(i) => NumberView::NegInt(i),
        JsonNumber::Float(t) => NumberView::Float(t@),
    }
}

/// The view of a document.
pub open spec fn json_view(v: JsonValue) -> JsonView
    decreases v, 0int,
{
    match v {
        JsonValue::Null => JsonView::Null,
        JsonValue::Bool(b) => JsonView::Bool(b),
        JsonValue::Number(n) => JsonView::Number(number_view(n)),
        JsonValue::String(s) => JsonView::String(s@),
        JsonValue::Array(a) => JsonView::Array(items_view(a@, a@.len() as int)),
        JsonValue::Object(e) => JsonView::Object(members_view(e@, e@.len() as int)),
    }
}

/// The views of the first `k` items of an array.
pub open spec fn items_view(s: Seq<JsonValue>, k: int) -> Seq<JsonView>
    decreases s, k,
{
    if k <= 0 || k > s.len() {
        Seq::empty()
    } else {
        items_view(s, k - 1).push(json_view(s[k - 1]))
    }
}

/// The views of the first `k` members of an object.
pub open spec fn members_view(s: Seq<(String, JsonValue)>, k: int) -> Seq<(Seq<char>, JsonView)>
    decreases s, k,
{
    if k <= 0 || k > s.len() {
        Seq::empty()
    } else {
        proof {
            assert(decreases_to!(s => s[k - 1]));
        }
        members_view(s, k - 1).push((s[k - 1].0@, json_view(s[k - 1].1)))
    }
}

impl View for JsonValue {
    type V = JsonView;

    open spec fn view(&self) -> JsonView {
        json_view(*self)
    }
}

/// The views of the items of an array, one by one.
pub proof fn lemma_items_view(s: Seq<JsonValue>, k: int)
    requires
        0 <= k <= s.len(),
    ensures
        items_view(s, k).len() == k,
        forall|i: int| 0 <= i < k ==> #[trigger] items_view(s, k)[i] == json_view(s[i]),
    decreases k,
{
    if k > 0 {
        lemma_items_view(s, k - 1);
    }
}

/// The views of the members of an object, one by one.
pub proof fn lemma_members_view(s: Seq<(String, JsonValue)>, k: int)
    requires
        0 <= k <= s.len(),
    ensures
        members_view(s, k).len() == k,
        forall|i: int| 0 <= i < k ==> #[trigger] members_view(s, k)[i] == (s[i].0@, json_view(s[i].1)),
    decreases k,
{
    if k > 0 {
        lemma_members_view(s, k - 1);
    }
}

/// `serde_json`'s JSON value, carried through unopened.
#[verifier::external_type_specification]
#[verifier::external_body]
pub struct ExValue(serde_json::Value);

/// `serde_json`'s JSON number, carried through unopened.
#[verifier::external_type_specification]
#[verifier::external_body]
pub struct ExNumber(serde_json::Number);

/// The document that `serde_json::from_str` reads from `text`, as the
/// library's JSON value; nothing where `serde_json` refuses the text.
pub uninterp spec fn json_of_text(text: Seq<char>) -> Option<JsonValue>;

/// A `serde_json` number as the library's: an integer exactly, any other
/// number by the decimal text `serde_json` writes for it.
#[verifier::external_body]
fn json_number_from_serde(n: &serde_json::Number) -> JsonNumber {
    match (n.as_u64(), n.as_i64()) {
        (Some(u), _) => JsonNumber::PosInt(u),
        (None, Some(i)) => JsonNumber::NegInt(i),
        (None, None) => JsonNumber::Float(n.to_string()),
    }
}

/// A `serde_json` value as the library's, variant for variant; object
/// members in the order `serde_json` keeps them.
#[verifier::external_body]
fn json_from_serde(v: &serde_json::Value) -> JsonValue {
    match v {
        serde_json::Value::Null => JsonValue::Null,
        serde_json::Value::Bool(b) => JsonValue::Bool(*b),
        serde_json::Value::Number(n) => JsonValue::Number(json_number_from_serde(n)),
        serde_json::Value::String(s) => JsonValue::String(s.clone()),
        serde_json::Value::Array(a) => JsonValue::Array(a.iter().map(json_from_serde).collect()),
        serde_json::Value::Object(m) => JsonValue::Object(m.iter().map(|(k, x)| (k.clone(), json_from_serde(x))).collect()),
    }
}

/// Calls `serde_json::from_str` to read `text` as a JSON document. Claimed:
/// the result depends on the text alone (`json_of_text`); what that
/// document is for a given text is not stated here.
#[verifier::external_body]
pub fn parse_json_text(text: &str) -> (r: Option<JsonValue>)
    ensures
        r == json_of_text(text@),
{
    serde_json::from_str::<serde_json::Value>(text).ok().map(|v| json_from_serde(&v))
}

/// The text that `serde_json` writes for a document (`to_string` on the
/// `serde_json` value made of it).
pub uninterp spec fn text_of_json(v: JsonView) -> Seq<char>;

/// Whether `a` comes before `b` when compared character by character, as
/// `String`s are ordered (the order of the members of a `serde_json` map).
pub open spec fn chars_before(a: Seq<char>, b: Seq<char>) -> bool
    decreases a.len(),
{
    if a.len() == 0 {
        b.len() > 0
    } else if b.len() == 0 {
        false
    } else if a[0] != b[0] {
        (a[0] as u32) < (b[0] as u32)
    } else {
        chars_before(a.drop_first(), b.drop_first())
    }
}

/// A document that `serde_json` writes and reads back unchanged: objects
/// with their members in increasing order of their names (so no name
/// twice), negative integers only as `NegInt`, no number given by its text,
/// and arrays and objects nested at most `depth` deep.
pub open spec fn canonical(v: JsonView, depth: nat) -> bool
    decreases v,
{
    match v {
        JsonView::Number(n) => match n {
            NumberView::PosInt(_) => true,
            NumberView::NegInt(i) => i < 0,
            NumberView::Float(_) => false,
        },
        JsonView::Array(a) => depth > 0 && forall|i: int| 0 <= i < a.len() ==> canonical(#[trigger] a[i], (depth - 1) as nat),
        JsonView::Object(e) => {
            &&& depth > 0
            &&& forall|i: int, j: int| 0 <= i < j < e.len() ==> chars_before(#[trigger] e[i].0, #[trigger] e[j].0)
            &&& forall|i: int| 0 <= i < e.len() ==> canonical(#[trigger] e[i].1, (depth - 1) as nat)
        },
        _ => true,
    }
}

/// The library's JSON value as a `serde_json` value, variant for variant; a
/// number given by its text is read back by `serde_json`.
#[verifier::external_body]
fn json_to_serde(v: &JsonValue) -> serde_json::Value {
    match v {
        JsonValue::Null => serde_json::Value::Null,
        JsonValue::Bool(b) => serde_json::Value::Bool(*b),
        JsonValue::Number(JsonNumber::PosInt(u)) => serde_json::Value::from(*u),
        JsonValue::Number(JsonNumber::NegInt(i)) => serde_json::Value::from(*i),
        JsonValue::Number(JsonNumber::Float(t)) => serde_json::from_str(t).unwrap_or(serde_json::Value::Null),
        JsonValue::String(s) => serde_json::Value::String(s.clone()),
        JsonValue::Array(a) => serde_json::Value::Array(a.iter().map(json_to_serde).collect()),
        JsonValue::Object(e) => serde_json::Value::Object(e.iter().map(|(k, x)| (k.clone(), json_to_serde(x))).collect()),
    }
}

/// Calls `to_string` on the `serde_json` value of `v`. Claimed: the text
/// depends on the document `v` alone (`text_of_json`), and `serde_json`
/// reads the text of a canonical document (nested at most 100 deep, well
/// within the 128 levels its parser takes) back as the same document: it
/// writes and reads strings and integers exactly and keeps the members of a
/// map in increasing order of their names. What the text is, is not stated
/// here. A number given by a text that `serde_json` does not read as a
/// number is written as `null`; canonical documents hold none.
#[verifier::external_body]
pub fn json_text(v: &JsonValue) -> (r: String)
    ensures
        r@ == text_of_json(v@),
        canonical(v@, 100) ==> json_of_text(r@) is Some && json_of_text(r@).unwrap()@ == v@,
{
    json_to_serde(v).to_string()
}

/// The index of the first member of `entries` named `key`, or -1.
pub open spec fn key_index(entries: Seq<(String, JsonValue)>, key: Seq<char>) -> int
    decreases entries.len(),
{
    if entries.len() == 0 {
        -1
    } else if entries[0].0@ == key {
        0
    } else {
        let r = key_index(entries.drop_first(), key);
        if r < 0 {
            -1
        } else {
            r + 1
        }
    }
}

/// The member of an object named `key`; nothing for other values.
pub open spec fn json_get(v: JsonValue, key: Seq<char>) -> Option<JsonValue> {
    match v {
        JsonValue::Object(e) => {
            let i = key_index(e@, key);
            if 0 <= i < e.len() {
                Some(e@[i].1)
            } else {
                None
            }
        },
        _ => None,
    }
}

/// The number as an unsigned integer, where it is a non-negative integer.
pub open spec fn number_as_u64(n: JsonNumber) -> Option<u64> {
    match n {
        JsonNumber::PosInt(u) => Some(u),
        _ => None,
    }
}

/// The number as a signed integer, where it is an integer that fits.
pub open spec fn number_as_i64(n: JsonNumber) -> Option<i64> {
    match n {
        JsonNumber::PosInt(u) => if u <= i64::MAX {
            Some(u as i64)
        } else {
            None
        },
        JsonNumber::NegInt(i) => Some(i),
        JsonNumber::Float(_) => None,
    }
}

proof fn lemma_key_index_bounds(entries: Seq<(String, JsonValue)>, key: Seq<char>)
    ensures
        -1 <= key_index(entries, key) < entries.len(),
        0 <= key_index(entries, key) ==> entries[key_index(entries, key)].0@ == key,
    decreases entries.len(),
{
    if entries.len() > 0 && entries[0].0@ != key {
        lemma_key_index_bounds(entries.drop_first(), key);
    }
}

/// Looking past the first `i` members, none of which is named `key`.
proof fn lemma_key_index_skip(entries: Seq<(String, JsonValue)>, key: Seq<char>, i: int)
    requires
        0 <= i < entries.len(),
        forall|j: int| 0 <= j < i ==> #[trigger] entries[j].0@ != key,
    ensures
        entries[i].0@ == key ==> key_index(entries, key) == i,
        entries[i].0@ != key ==> key_index(entries, key) == (if key_index(entries.skip(i + 1), key) < 0 {
            -1
        } else {
            key_index(entries.skip(i + 1), key) + i + 1
        }),
    decreases i,
{
    if i > 0 {
        let rest = entries.drop_first();
        assert forall|j: int| 0 <= j < i - 1 implies #[trigger] rest[j].0@ != key by {
            assert(rest[j] == entries[j + 1]);
        }
        lemma_key_index_skip(rest, key, i - 1);
        assert(rest.skip(i) =~= entries.skip(i + 1));
    } else {
        assert(entries.skip(1) =~= entries.drop_first());
    }
}

impl JsonValue {
    /// The member of an object named `key`; `None` for a missing member or
    /// a value that is not an object.
    pub fn get(&self, key: &str) -> (r: Option<&JsonValue>)
        ensures
            match json_get(*self, key@) {
                Some(m) => r matches Some(x) && *x == m,
                None => r is None,
            },
    {
        match self {
            JsonValue::Object(entries) => {
                let k = String::from_str(key);
                let mut i: usize = 0;
                while i < entries.len()
                    invariant
                        0 <= i <= entries.len(),
                        k@ == key@,
                        *self == JsonValue::Object(*entries),
                        forall|j: int| 0 <= j < i ==> #[trigger] entries@[j].0@ != key@,
                    decreases entries.len() - i,
                {
                    proof {
                        lemma_key_index_skip(entries@, key@, i as int);
                    }
                    if entries[i].0 == k {
                        return Some(&entries[i].1);
                    }
                    i += 1;
                }
                proof {
                    lemma_key_index_bounds(entries@, key@);
                    if key_index(entries@, key@) >= 0 {
                        let w = key_index(entries@, key@);
                        assert(entries@[w].0@ != key@);
                    }
                }
                None
            },
            _ => None,
        }
    }

    /// The text of a string value.
    pub fn as_str(&self) -> (r: Option<&str>)
        ensures
            match *self {
                JsonValue::String(s) => r matches Some(t) && t@ == s@,
                _ => r is None,
            },
    {
        match self {
            JsonValue::String(s) => Some(s.as_str()),
            _ => None,
        }
    }

    /// The elements of an array value.
    pub fn as_array(&self) -> (r: Option<&Vec<JsonValue>>)
        ensures
            match *self {
                JsonValue::Array(a) => r matches Some(x) && *x == a,
                _ => r is None,
            },
    {
        match self {
            JsonValue::Array(a) => Some(a),
            _ => None,
        }
    }

    /// A non-negative integer value.
    pub fn as_u64(&self) -> (r: Option<u64>)
        ensures
            r == (match *self {
                JsonValue::Number(n) => number_as_u64(n),
                _ => None,
            }),
    {
        match self {
            JsonValue::Number(JsonNumber::PosInt(u)) => Some(*u),
            _ => None,
        }
    }

    /// An integer value that fits in an `i64`.
    pub fn as_i64(&self) -> (r: Option<i64>)
        ensures
            r == (match *self {
                JsonValue::Number(n) => number_as_i64(n),
                _ => None,
            }),
    {
        match self {
            JsonValue::Number(JsonNumber::PosInt(u)) => {
                if *u <= 9223372036854775807u64 {
                    Some(*u as i64)
                } else {
                    None
                }
            },
            JsonValue::Number(JsonNumber::NegInt(i)) => Some(*i),
            _ => None,
        }
    }
}

} // verus!
