//! JSON values of `serde_json`, as trees.
use vstd::prelude::*;

verus! {

/// A JSON value of `serde_json`.
#[verifier::external_type_specification]
#[verifier::external_body]
pub struct ExJsonValue(serde_json::Value);

/// A JSON number of `serde_json`.
#[verifier::external_type_specification]
#[verifier::external_body]
pub struct ExJsonNumber(serde_json::Number);

/// The members of a JSON object of `serde_json`.
#[verifier::external_type_specification]
#[verifier::external_body]
#[verifier::reject_recursive_types(K)]
#[verifier::reject_recursive_types(V)]
pub struct ExJsonMap<K, V>(serde_json::Map<K, V>);

/// A JSON value as a tree. The members of an object are in order.
pub enum JsonTree {
    Null,
    Bool(bool),
    Int(int),
    /// A floating-point number, by the bits of its double.
    Real(int),
    Text(Seq<char>),
    Array(Seq<JsonTree>),
    Object(Seq<(Seq<char>, JsonTree)>),
}

/// The tree that a JSON value holds.
pub uninterp spec fn json_tree(v: serde_json::Value) -> JsonTree;

/// The tree of a JSON number: an integer or a floating-point number.
pub uninterp spec fn number_tree(n: serde_json::Number) -> JsonTree;

/// The members that a JSON map holds, in order.
pub uninterp spec fn map_members(m: serde_json::Map<String, serde_json::Value>) -> Seq<
    (Seq<char>, JsonTree),
>;

/// The trees of a list of JSON values.
pub open spec fn json_trees(v: Seq<serde_json::Value>) -> Seq<JsonTree> {
    Seq::new(v.len(), |i: int| json_tree(v[i]))
}

/// The first member at or after index `i` with the given key.
pub open spec fn member_index(
    members: Seq<(Seq<char>, JsonTree)>,
    key: Seq<char>,
    i: int,
) -> Option<int>
    decreases members.len() - i,
{
    if i < 0 || i >= members.len() {
        None
    } else if members[i].0 == key {
        Some(i)
    } else {
        member_index(members, key, i + 1)
    }
}

/// The members with `key` set to `tree`: in its place where it is there, at the
/// end where it is not.
pub open spec fn with_member(
    members: Seq<(Seq<char>, JsonTree)>,
    key: Seq<char>,
    tree: JsonTree,
) -> Seq<(Seq<char>, JsonTree)> {
    match member_index(members, key, 0) {
        Some(i) => members.update(i, (key, tree)),
        None => members.push((key, tree)),
    }
}

/// `Value::Null` is the JSON null.
#[verifier::external_body]
pub(crate) fn json_null() -> (r: serde_json::Value)
    ensures
        json_tree(r) == JsonTree::Null,
{
    serde_json::Value::Null
}

/// `Value::Bool` holds the given truth value.
#[verifier::external_body]
pub(crate) fn json_bool(b: bool) -> (r: serde_json::Value)
    ensures
        json_tree(r) == JsonTree::Bool(b),
{
    serde_json::Value::Bool(b)
}

/// `Value::from` of an `i64` is the number of that value.
#[verifier::external_body]
pub(crate) fn json_i64(n: i64) -> (r: serde_json::Value)
    ensures
        json_tree(r) == JsonTree::Int(n as int),
{
    serde_json::Value::from(n)
}

/// `Value::from` of a `u64` is the number of that value.
#[verifier::external_body]
pub(crate) fn json_u64(n: u64) -> (r: serde_json::Value)
    ensures
        json_tree(r) == JsonTree::Int(n as int),
{
    serde_json::Value::from(n)
}

/// `Value::Number` holds the given number.
#[verifier::external_body]
pub(crate) fn json_number(n: &serde_json::Number) -> (r: serde_json::Value)
    ensures
        json_tree(r) == number_tree(*n),
{
    serde_json::Value::Number(n.clone())
}

/// `Value::String` holds the given text.
#[verifier::external_body]
pub(crate) fn json_string(s: String) -> (r: serde_json::Value)
    ensures
        json_tree(r) == JsonTree::Text(s@),
{
    serde_json::Value::String(s)
}

/// `Value::Array` holds the given values, in order.
#[verifier::external_body]
pub(crate) fn json_array(items: Vec<serde_json::Value>) -> (r: serde_json::Value)
    ensures
        json_tree(r) == JsonTree::Array(json_trees(items@)),
{
    serde_json::Value::Array(items)
}

/// `Value::Object` holds the members of the given map, in order.
#[verifier::external_body]
pub(crate) fn json_object(m: serde_json::Map<String, serde_json::Value>) -> (r: serde_json::Value)
    ensures
        json_tree(r) == JsonTree::Object(map_members(m)),
{
    serde_json::Value::Object(m)
}

/// `Map::new` is the map without members.
#[verifier::external_body]
pub(crate) fn json_map() -> (r: serde_json::Map<String, serde_json::Value>)
    ensures
        map_members(r) == Seq::<(Seq<char>, JsonTree)>::empty(),
{
    serde_json::Map::new()
}

/// `Map::insert`, in a map that keeps its order, updates the value of a key in
/// its place or appends a new member.
#[verifier::external_body]
pub(crate) fn json_insert(
    m: &mut serde_json::Map<String, serde_json::Value>,
    key: String,
    value: serde_json::Value,
)
    ensures
        map_members(*final(m)) == with_member(map_members(*old(m)), key@, json_tree(value)),
{
    m.insert(key, value);
}

/// The compact JSON text of a tree.
pub uninterp spec fn json_text(tree: JsonTree) -> Seq<char>;

/// The indented JSON text of a tree.
pub uninterp spec fn json_pretty_text(tree: JsonTree) -> Seq<char>;

/// `serde_json::to_string` of a JSON value gives its compact text, which stays on
/// one line: nothing stands between the tokens, and strings are escaped. Of such
/// a value it does not fail: its keys are strings, and it is written to memory.
#[verifier::external_body]
pub(crate) fn json_to_string(v: &serde_json::Value) -> (r: String)
    ensures
        r@ == json_text(json_tree(*v)),
        !r@.contains('\n'),
{
    serde_json::to_string(v).unwrap_or_default()
}

/// `serde_json::to_string_pretty` of a JSON value gives its indented text. Of
/// such a value it does not fail: its keys are strings, and it is written to
/// memory.
#[verifier::external_body]
pub(crate) fn json_to_string_pretty(v: &serde_json::Value) -> (r: String)
    ensures
        r@ == json_pretty_text(json_tree(*v)),
{
    serde_json::to_string_pretty(v).unwrap_or_default()
}

// ─── reading ────────────────────────────────────────────────────────────────
/// The tree of a JSON text, none where the text is no JSON.
pub uninterp spec fn json_parsed(text: Seq<char>) -> Option<JsonTree>;

/// `serde_json::from_str` reads a JSON text.
#[verifier::external_body]
pub(crate) fn json_parse(text: &str) -> (r: Option<serde_json::Value>)
    ensures
        match r {
            Some(v) => json_parsed(text@) == Some(json_tree(v)),
            None => json_parsed(text@) is None,
        },
{
    serde_json::from_str(text).ok()
}

/// The member of an object with the given key.
pub open spec fn member(tree: JsonTree, key: Seq<char>) -> Option<JsonTree> {
    match tree {
        JsonTree::Object(members) => match member_index(members, key, 0) {
            Some(i) => Some(members[i].1),
            None => None,
        },
        _ => None,
    }
}

/// `Value::get` of a string key gives the member of an object with that key,
/// and nothing for other values.
#[verifier::external_body]
pub(crate) fn json_get<'a>(v: &'a serde_json::Value, key: &str) -> (r: Option<
    &'a serde_json::Value,
>)
    ensures
        match r {
            Some(m) => member(json_tree(*v), key@) == Some(json_tree(*m)),
            None => member(json_tree(*v), key@) is None,
        },
{
    v.get(key)
}

/// The text of a tree that is one.
pub open spec fn tree_text(tree: JsonTree) -> Option<Seq<char>> {
    match tree {
        JsonTree::Text(s) => Some(s),
        _ => None,
    }
}

/// `Value::as_str` gives the text of a string, and nothing for other values.
#[verifier::external_body]
pub(crate) fn json_as_str(v: &serde_json::Value) -> (r: Option<&str>)
    ensures
        match r {
            Some(s) => tree_text(json_tree(*v)) == Some(s@),
            None => tree_text(json_tree(*v)) is None,
        },
{
    v.as_str()
}

/// The count in a tree that is one.
pub open spec fn tree_count(tree: JsonTree) -> Option<u64> {
    match tree {
        JsonTree::Int(n) => if 0 <= n <= u64::MAX {
            Some(n as u64)
        } else {
            None
        },
        _ => None,
    }
}

/// `Value::as_u64` gives an integer that fits, and nothing for other values.
#[verifier::external_body]
pub(crate) fn json_as_u64(v: &serde_json::Value) -> (r: Option<u64>)
    ensures
        r == tree_count(json_tree(*v)),
{
    v.as_u64()
}

/// `Value::as_array` gives the items of an array, and nothing for other values.
#[verifier::external_body]
pub(crate) fn json_as_array(v: &serde_json::Value) -> (r: Option<&Vec<serde_json::Value>>)
    ensures
        match r {
            Some(items) => json_tree(*v) == JsonTree::Array(json_trees(items@)),
            None => !(json_tree(*v) is Array),
        },
{
    v.as_array()
}

// ─── laws ───────────────────────────────────────────────────────────────────
proof fn lemma_member_index(members: Seq<(Seq<char>, JsonTree)>, key: Seq<char>, i: int)
    requires
        0 <= i,
    ensures
        match member_index(members, key, i) {
            Some(k) => i <= k < members.len() && members[k].0 == key && forall|j: int|
                i <= j < k ==> (#[trigger] members[j]).0 != key,
            None => forall|j: int| i <= j < members.len() ==> (#[trigger] members[j]).0 != key,
        },
    decreases members.len() - i,
{
    if i < members.len() && members[i].0 != key {
        lemma_member_index(members, key, i + 1);
    }
}

/// A member that was set is found under its key; all other keys give what they
/// gave before.
#[verifier::rlimit(50)]
pub proof fn set_members_are_found(
    members: Seq<(Seq<char>, JsonTree)>,
    key: Seq<char>,
    tree: JsonTree,
    other: Seq<char>,
)
    requires
        other != key,
    ensures
        member(JsonTree::Object(with_member(members, key, tree)), key) == Some(tree),
        member(JsonTree::Object(with_member(members, key, tree)), other) == member(
            JsonTree::Object(members),
            other,
        ),
        member(JsonTree::Object(Seq::empty()), key) is None,
        member(tree, key) is Some ==> tree is Object,
{
    let after = with_member(members, key, tree);
    lemma_member_index(members, key, 0);
    lemma_member_index(after, key, 0);
    lemma_member_index(members, other, 0);
    lemma_member_index(after, other, 0);
    let at = member_index(members, key, 0);
    if at is Some {
        let k = at->0;
        assert(after[k] == (key, tree));
        let found = member_index(after, key, 0);
        if found is Some && found->0 < k {
            assert(after[found->0] == members[found->0]);
        }
    } else {
        let n = members.len() as int;
        assert(after[n] == (key, tree));
        let found = member_index(after, key, 0);
        if found is Some && found->0 < n {
            assert(after[found->0] == members[found->0]);
        }
    }
    let before = member_index(members, other, 0);
    let now = member_index(after, other, 0);
    if before is Some {
        let b = before->0;
        assert(after[b] == members[b]);
        if now is Some && now->0 < b {
            assert(after[now->0].0 == members[now->0].0);
        }
    } else if now is Some {
        let k = now->0;
        if k < members.len() {
            assert(after[k].0 == members[k].0 || after[k] == (key, tree));
        }
    }
}

/// Members keep their places: a new one comes last.
pub proof fn members_keep_their_places(
    members: Seq<(Seq<char>, JsonTree)>,
    key: Seq<char>,
    tree: JsonTree,
    i: int,
)
    requires
        0 <= i < members.len(),
    ensures
        with_member(members, key, tree)[i].0 == members[i].0,
        members[i].0 != key ==> with_member(members, key, tree)[i] == members[i],
        member(JsonTree::Object(members), key) is None ==> with_member(members, key, tree)
            == members.push((key, tree)),
        member(JsonTree::Object(members), key) is Some ==> with_member(members, key, tree).len()
            == members.len(),
{
    lemma_member_index(members, key, 0);
}

/// Only texts have a text, and only numbers from 0 up to the largest a count.
pub proof fn texts_and_counts_are_told_apart(tree: JsonTree, n: u64, s: Seq<char>)
    ensures
        tree_text(JsonTree::Text(s)) == Some(s),
        !(tree is Text) ==> tree_text(tree) is None,
        tree_count(JsonTree::Int(n as int)) == Some(n),
        tree_count(JsonTree::Int(-1 - n)) is None,
        tree_count(JsonTree::Int(u64::MAX + 1 + n)) is None,
        !(tree is Int) ==> tree_count(tree) is None,
{
}

} // verus!
