//! Cell values and how they are shown.
use vstd::prelude::*;

use crate::calendar::{
    date32_to_iso, date_of, iso_date, iso_time, iso_timestamp, time_to_iso, timestamp_to_iso,
    TimeUnit,
};
use crate::json::{
    json_array, json_bool, json_i64, json_insert, json_map, json_null, json_number, json_object,
    json_string, json_text, json_to_string, json_tree, json_trees, json_u64, map_members,
    member_index, number_tree, with_member, JsonTree,
};
use crate::number::{
    all_digits, decimal, decimal_reads_back, digits_value, show, show_signed, signed_decimal,
};
use crate::text::{cat3, copy_of};

verus! {

/// A cell of a result.
#[derive(Debug)]
pub enum CellValue {
    Null,
    Boolean(bool),
    TinyInt(i8),
    SmallInt(i16),
    Int(i32),
    BigInt(i64),
    HugeInt(i128),
    UTinyInt(u8),
    USmallInt(u16),
    UInt(u32),
    UBigInt(u64),
    /// A single-precision number: its text, and its JSON number where it is finite.
    Float(String, Option<serde_json::Number>),
    /// A double-precision number: its text, and its JSON number where it is finite.
    Double(String, Option<serde_json::Number>),
    /// A decimal number, by its text.
    Decimal(String),
    Text(String),
    Blob(Vec<u8>),
    /// Days since 1970-01-01.
    Date32(i32),
    /// A time of day.
    Time64(TimeUnit, i64),
    /// A time since 1970-01-01.
    Timestamp(TimeUnit, i64),
    List(Vec<CellValue>),
    Array(Vec<CellValue>),
    /// Named fields, in order.
    Struct(Vec<(String, CellValue)>),
    /// Keys and their values, in order.
    Mapping(Vec<(CellValue, CellValue)>),
    Enum(String),
    /// The value of the branch that a union holds.
    Union(Box<CellValue>),
    /// Any other kind of value, by its text.
    Other(String),
}

// ─── as JSON ────────────────────────────────────────────────────────────────
/// How a blob is shown.
pub open spec fn blob_text(len: nat) -> Seq<char> {
    "<blob "@ + decimal(len) + " bytes>"@
}

/// A value as a JSON tree. Decimal and huge numbers become texts, to keep their
/// digits, and so do dates and times; nested values become arrays and objects.
pub open spec fn value_json(v: CellValue) -> JsonTree
    decreases v, 0nat,
{
    match v {
        CellValue::Null => JsonTree::Null,
        CellValue::Boolean(b) => JsonTree::Bool(b),
        CellValue::TinyInt(i) => JsonTree::Int(i as int),
        CellValue::SmallInt(i) => JsonTree::Int(i as int),
        CellValue::Int(i) => JsonTree::Int(i as int),
        CellValue::BigInt(i) => JsonTree::Int(i as int),
        CellValue::HugeInt(i) => JsonTree::Text(signed_decimal(i as int)),
        CellValue::UTinyInt(i) => JsonTree::Int(i as int),
        CellValue::USmallInt(i) => JsonTree::Int(i as int),
        CellValue::UInt(i) => JsonTree::Int(i as int),
        CellValue::UBigInt(i) => JsonTree::Int(i as int),
        CellValue::Float(_, Some(n)) => number_tree(n),
        CellValue::Float(_, None) => JsonTree::Null,
        CellValue::Double(_, Some(n)) => number_tree(n),
        CellValue::Double(_, None) => JsonTree::Null,
        CellValue::Decimal(text) => JsonTree::Text(text@),
        CellValue::Text(s) => JsonTree::Text(s@),
        CellValue::Blob(b) => JsonTree::Text(blob_text(b@.len())),
        CellValue::Date32(d) => JsonTree::Text(iso_date(date_of(d as int))),
        CellValue::Time64(unit, t) => JsonTree::Text(iso_time(unit, t as int)),
        CellValue::Timestamp(unit, t) => JsonTree::Text(iso_timestamp(unit, t as int)),
        CellValue::List(items) => JsonTree::Array(list_json(items@)),
        CellValue::Array(items) => JsonTree::Array(list_json(items@)),
        CellValue::Struct(fields) => JsonTree::Object(struct_json(fields@)),
        CellValue::Mapping(entries) => JsonTree::Object(map_json(entries@)),
        CellValue::Enum(s) => JsonTree::Text(s@),
        CellValue::Union(inner) => value_json(*inner),
        CellValue::Other(text) => JsonTree::Text(text@),
    }
}

/// The items of a list as JSON trees.
pub open spec fn list_json(items: Seq<CellValue>) -> Seq<JsonTree>
    decreases items, 0nat,
{
    if items.len() == 0 {
        Seq::empty()
    } else {
        list_json(items.drop_last()).push(value_json(items.last()))
    }
}

/// The members of a struct's JSON object.
pub open spec fn struct_json(fields: Seq<(String, CellValue)>) -> Seq<(Seq<char>, JsonTree)>
    decreases fields, 0nat,
{
    if fields.len() == 0 {
        Seq::empty()
    } else {
        with_member(
            struct_json(fields.drop_last()),
            fields.last().0@,
            value_json(fields.last().1),
        )
    }
}

/// The members of a map's JSON object. A key that is no text is shown as text.
pub open spec fn map_json(entries: Seq<(CellValue, CellValue)>) -> Seq<(Seq<char>, JsonTree)>
    decreases entries, 0nat,
{
    if entries.len() == 0 {
        Seq::empty()
    } else {
        with_member(
            map_json(entries.drop_last()),
            value_text_of_key(entries.last().0),
            value_json(entries.last().1),
        )
    }
}

/// The JSON key of a map's key.
pub open spec fn value_text_of_key(k: CellValue) -> Seq<char>
    decreases k, 2nat,
{
    match k {
        CellValue::Text(s) => s@,
        _ => value_text(k),
    }
}

/// A value as the text of a table cell. Nested values are compact JSON.
pub open spec fn value_text(v: CellValue) -> Seq<char>
    decreases v, 1nat,
{
    match v {
        CellValue::Null => "∅"@,
        CellValue::Text(s) => s@,
        CellValue::Boolean(b) => if b {
            "true"@
        } else {
            "false"@
        },
        CellValue::Float(text, _) => text@,
        CellValue::Double(text, _) => text@,
        CellValue::Decimal(text) => text@,
        CellValue::TinyInt(i) => signed_decimal(i as int),
        CellValue::SmallInt(i) => signed_decimal(i as int),
        CellValue::Int(i) => signed_decimal(i as int),
        CellValue::BigInt(i) => signed_decimal(i as int),
        CellValue::HugeInt(i) => signed_decimal(i as int),
        CellValue::UTinyInt(i) => signed_decimal(i as int),
        CellValue::USmallInt(i) => signed_decimal(i as int),
        CellValue::UInt(i) => signed_decimal(i as int),
        CellValue::UBigInt(i) => signed_decimal(i as int),
        CellValue::Blob(b) => blob_text(b@.len()),
        CellValue::Date32(d) => iso_date(date_of(d as int)),
        CellValue::Time64(unit, t) => iso_time(unit, t as int),
        CellValue::Timestamp(unit, t) => iso_timestamp(unit, t as int),
        CellValue::Other(text) => text@,
        _ => json_text(value_json(v)),
    }
}

fn blob_to_text(b: &Vec<u8>) -> (r: String)
    ensures
        r@ == blob_text(b@.len()),
{
    cat3("<blob ", show(b.len() as u128).as_str(), " bytes>")
}

/// A value as JSON.
pub fn value_to_json(v: &CellValue) -> (r: serde_json::Value)
    ensures
        json_tree(r) == value_json(*v),
    decreases *v, 0nat,
{
    match v {
        CellValue::Null => json_null(),
        CellValue::Boolean(b) => json_bool(*b),
        CellValue::TinyInt(i) => json_i64(*i as i64),
        CellValue::SmallInt(i) => json_i64(*i as i64),
        CellValue::Int(i) => json_i64(*i as i64),
        CellValue::BigInt(i) => json_i64(*i),
        CellValue::HugeInt(i) => json_string(show_signed(*i)),
        CellValue::UTinyInt(i) => json_u64(*i as u64),
        CellValue::USmallInt(i) => json_u64(*i as u64),
        CellValue::UInt(i) => json_u64(*i as u64),
        CellValue::UBigInt(i) => json_u64(*i),
        CellValue::Float(_, Some(n)) => json_number(n),
        CellValue::Float(_, None) => json_null(),
        CellValue::Double(_, Some(n)) => json_number(n),
        CellValue::Double(_, None) => json_null(),
        CellValue::Decimal(text) => json_string(text.clone()),
        CellValue::Text(s) => json_string(s.clone()),
        CellValue::Blob(b) => json_string(blob_to_text(b)),
        CellValue::Date32(d) => json_string(date32_to_iso(*d)),
        CellValue::Time64(unit, t) => json_string(time_to_iso(*unit, *t)),
        CellValue::Timestamp(unit, t) => json_string(timestamp_to_iso(*unit, *t)),
        CellValue::List(items) => json_array(list_to_json(items)),
        CellValue::Array(items) => json_array(list_to_json(items)),
        CellValue::Struct(fields) => json_object(struct_to_json(fields)),
        CellValue::Mapping(entries) => json_object(map_to_json(entries)),
        CellValue::Enum(s) => json_string(s.clone()),
        CellValue::Union(inner) => value_to_json(inner),
        CellValue::Other(text) => json_string(text.clone()),
    }
}

fn list_to_json(items: &Vec<CellValue>) -> (r: Vec<serde_json::Value>)
    ensures
        json_trees(r@) == list_json(items@),
    decreases *items, 0nat,
{
    let mut out: Vec<serde_json::Value> = Vec::new();
    let mut i: usize = 0;
    assert(json_trees(out@) =~= list_json(items@.take(0)));
    while i < items.len()
        invariant
            i <= items.len(),
            json_trees(out@) == list_json(items@.take(i as int)),
        decreases items.len() - i,
    {
        let j = value_to_json(&items[i]);
        proof {
            assert(items@.take(i + 1).drop_last() =~= items@.take(i as int));
            assert(json_trees(out@.push(j)) =~= json_trees(out@).push(json_tree(j)));
        }
        out.push(j);
        i += 1;
    }
    assert(items@.take(items@.len() as int) =~= items@);
    out
}

fn struct_to_json(fields: &Vec<(String, CellValue)>) -> (r: serde_json::Map<
    String,
    serde_json::Value,
>)
    ensures
        map_members(r) == struct_json(fields@),
    decreases *fields, 0nat,
{
    let mut m = json_map();
    let mut i: usize = 0;
    while i < fields.len()
        invariant
            i <= fields.len(),
            map_members(m) == struct_json(fields@.take(i as int)),
        decreases fields.len() - i,
    {
        let field = &fields[i];
        let j = value_to_json(&field.1);
        proof {
            assert(fields@.take(i + 1).drop_last() =~= fields@.take(i as int));
        }
        json_insert(&mut m, field.0.clone(), j);
        i += 1;
    }
    assert(fields@.take(fields@.len() as int) =~= fields@);
    m
}

fn map_to_json(entries: &Vec<(CellValue, CellValue)>) -> (r: serde_json::Map<String, serde_json::Value>)
    ensures
        map_members(r) == map_json(entries@),
    decreases *entries, 0nat,
{
    let mut m = json_map();
    let mut i: usize = 0;
    while i < entries.len()
        invariant
            i <= entries.len(),
            map_members(m) == map_json(entries@.take(i as int)),
        decreases entries.len() - i,
    {
        let entry = &entries[i];
        let key = match &entry.0 {
            CellValue::Text(s) => s.clone(),
            other => value_to_display(other),
        };
        assert(key@ == value_text_of_key(entry.0));
        let j = value_to_json(&entry.1);
        proof {
            assert(entries@.take(i + 1).drop_last() =~= entries@.take(i as int));
        }
        json_insert(&mut m, key, j);
        i += 1;
    }
    assert(entries@.take(entries@.len() as int) =~= entries@);
    m
}

/// A value as the text of a table cell.
pub fn value_to_display(v: &CellValue) -> (r: String)
    ensures
        r@ == value_text(*v),
    decreases *v, 1nat,
{
    match v {
        CellValue::Null => copy_of("∅"),
        CellValue::Text(s) => s.clone(),
        CellValue::Boolean(b) => copy_of(
            if *b {
                "true"
            } else {
                "false"
            },
        ),
        CellValue::Float(text, _) => text.clone(),
        CellValue::Double(text, _) => text.clone(),
        CellValue::Decimal(text) => text.clone(),
        CellValue::TinyInt(i) => show_signed(*i as i128),
        CellValue::SmallInt(i) => show_signed(*i as i128),
        CellValue::Int(i) => show_signed(*i as i128),
        CellValue::BigInt(i) => show_signed(*i as i128),
        CellValue::HugeInt(i) => show_signed(*i),
        CellValue::UTinyInt(i) => show_signed(*i as i128),
        CellValue::USmallInt(i) => show_signed(*i as i128),
        CellValue::UInt(i) => show_signed(*i as i128),
        CellValue::UBigInt(i) => show_signed(*i as i128),
        CellValue::Blob(b) => blob_to_text(b),
        CellValue::Date32(d) => date32_to_iso(*d),
        CellValue::Time64(unit, t) => time_to_iso(*unit, *t),
        CellValue::Timestamp(unit, t) => timestamp_to_iso(*unit, *t),
        CellValue::Other(text) => text.clone(),
        _ => json_to_string(&value_to_json(v)),
    }
}

// ─── laws ───────────────────────────────────────────────────────────────────
/// The text shows the number: its digits, behind a minus sign where it is negative.
pub open spec fn shows_number(text: Seq<char>, n: int) -> bool {
    if n < 0 {
        text.len() > 1 && text[0] == '-' && all_digits(text.skip(1)) && digits_value(text.skip(1))
            == -n
    } else {
        text.len() > 0 && all_digits(text) && digits_value(text) == n
    }
}

proof fn lemma_signed_decimal_shows(n: int)
    ensures
        shows_number(signed_decimal(n), n),
{
    reveal_strlit("-");
    if n < 0 {
        decimal_reads_back((-n) as nat);
        assert(("-"@ + decimal((-n) as nat)).skip(1) =~= decimal((-n) as nat));
    } else {
        decimal_reads_back(n as nat);
    }
}

/// Truth values are told apart: each is shown by its own word, and is itself in
/// JSON.
pub proof fn truth_values_differ(a: bool, b: bool)
    ensures
        value_text(CellValue::Boolean(true)) == "true"@,
        value_text(CellValue::Boolean(false)) == "false"@,
        value_text(CellValue::Boolean(a)) == value_text(CellValue::Boolean(b)) ==> a == b,
        value_json(CellValue::Boolean(a)) == JsonTree::Bool(a),
{
    reveal_strlit("true");
    reveal_strlit("false");
    assert("true"@.len() != "false"@.len());
}

/// Integers of every size are shown by their own digits, and are numbers of the
/// same value in JSON; huge ones are texts there.
pub proof fn integers_are_shown_by_their_digits(v: CellValue, n: int)
    requires
        ({
            ||| v == CellValue::TinyInt(n as i8) && i8::MIN <= n <= i8::MAX
            ||| v == CellValue::SmallInt(n as i16) && i16::MIN <= n <= i16::MAX
            ||| v == CellValue::Int(n as i32) && i32::MIN <= n <= i32::MAX
            ||| v == CellValue::BigInt(n as i64) && i64::MIN <= n <= i64::MAX
            ||| v == CellValue::HugeInt(n as i128) && i128::MIN <= n <= i128::MAX
            ||| v == CellValue::UTinyInt(n as u8) && 0 <= n <= u8::MAX
            ||| v == CellValue::USmallInt(n as u16) && 0 <= n <= u16::MAX
            ||| v == CellValue::UInt(n as u32) && 0 <= n <= u32::MAX
            ||| v == CellValue::UBigInt(n as u64) && 0 <= n <= u64::MAX
        }),
    ensures
        shows_number(value_text(v), n),
        !(v is HugeInt) ==> value_json(v) == JsonTree::Int(n),
        v is HugeInt ==> value_json(v) == JsonTree::Text(value_text(v)),
{
    lemma_signed_decimal_shows(n);
}

/// Texts, and numbers that come as texts, are shown as they are, in cells and in
/// JSON.
pub proof fn texts_are_shown_as_they_are(s: String, n: Option<serde_json::Number>)
    ensures
        value_text(CellValue::Text(s)) == s@,
        value_text(CellValue::Decimal(s)) == s@,
        value_text(CellValue::Other(s)) == s@,
        value_text(CellValue::Float(s, n)) == s@,
        value_text(CellValue::Double(s, n)) == s@,
        value_json(CellValue::Text(s)) == JsonTree::Text(s@),
        value_json(CellValue::Decimal(s)) == JsonTree::Text(s@),
        value_json(CellValue::Other(s)) == JsonTree::Text(s@),
        value_json(CellValue::Enum(s)) == JsonTree::Text(s@),
        value_json(CellValue::Float(s, n)) == match n {
            Some(x) => number_tree(x),
            None => JsonTree::Null,
        },
        value_json(CellValue::Double(s, n)) == match n {
            Some(x) => number_tree(x),
            None => JsonTree::Null,
        },
{
}

/// A missing value is a sign of its own in cells and null in JSON.
pub proof fn missing_values_are_null()
    ensures
        value_text(CellValue::Null) == "∅"@,
        value_json(CellValue::Null) == JsonTree::Null,
{
}

/// Dates, times and blobs are the same text in cells and in JSON.
pub proof fn dates_and_blobs_have_one_text(
    d: i32,
    unit: TimeUnit,
    t: i64,
    b: Vec<u8>,
)
    ensures
        value_json(CellValue::Date32(d)) == JsonTree::Text(value_text(CellValue::Date32(d))),
        value_json(CellValue::Time64(unit, t)) == JsonTree::Text(
            value_text(CellValue::Time64(unit, t)),
        ),
        value_json(CellValue::Timestamp(unit, t)) == JsonTree::Text(
            value_text(CellValue::Timestamp(unit, t)),
        ),
        value_json(CellValue::Blob(b)) == JsonTree::Text(value_text(CellValue::Blob(b))),
        value_text(CellValue::Blob(b)) == "<blob "@ + decimal(b@.len()) + " bytes>"@,
        value_text(CellValue::Date32(d)) == iso_date(date_of(d as int)),
        value_text(CellValue::Time64(unit, t)) == iso_time(unit, t as int),
        value_text(CellValue::Timestamp(unit, t)) == iso_timestamp(unit, t as int),
{
}

proof fn lemma_list_items(items: Seq<CellValue>)
    ensures
        list_json(items).len() == items.len(),
        forall|i: int|
            0 <= i < items.len() ==> #[trigger] list_json(items)[i] == value_json(items[i]),
    decreases items.len(),
{
    if items.len() > 0 {
        lemma_list_items(items.drop_last());
        let all = list_json(items);
        assert forall|i: int| 0 <= i < items.len() implies #[trigger] all[i] == value_json(
            items[i],
        ) by {
            if i < items.len() - 1 {
                assert(all[i] == list_json(items.drop_last())[i]);
            }
        }
    }
}

/// Lists and arrays become JSON arrays of their items, in order, and are shown as
/// the JSON text of that.
pub proof fn lists_keep_their_items(items: Vec<CellValue>)
    ensures
        value_json(CellValue::List(items)) == value_json(CellValue::Array(items)),
        value_json(CellValue::List(items)) is Array,
        ({
            let trees = value_json(CellValue::List(items))->Array_0;
            &&& trees.len() == items@.len()
            &&& forall|i: int|
                0 <= i < items@.len() ==> #[trigger] trees[i] == value_json(items@[i])
        }),
        value_text(CellValue::List(items)) == json_text(value_json(CellValue::List(items))),
        value_text(CellValue::Array(items)) == json_text(value_json(CellValue::List(items))),
{
    lemma_list_items(items@);
}

/// The fields have different names.
pub open spec fn fields_differ(fields: Seq<(String, CellValue)>) -> bool {
    forall|i: int, j: int|
        0 <= i < j < fields.len() ==> (#[trigger] fields[i]).0@ != (#[trigger] fields[j]).0@
}

proof fn lemma_absent_member(members: Seq<(Seq<char>, JsonTree)>, key: Seq<char>, i: int)
    requires
        0 <= i,
        forall|k: int| 0 <= k < members.len() ==> (#[trigger] members[k]).0 != key,
    ensures
        member_index(members, key, i) is None,
    decreases members.len() - i,
{
    if i < members.len() {
        assert(members[i].0 != key);
        lemma_absent_member(members, key, i + 1);
    }
}

proof fn lemma_struct_members(fields: Seq<(String, CellValue)>)
    requires
        fields_differ(fields),
    ensures
        struct_json(fields).len() == fields.len(),
        forall|i: int|
            0 <= i < fields.len() ==> #[trigger] struct_json(fields)[i] == (
                fields[i].0@,
                value_json(fields[i].1),
            ),
    decreases fields.len(),
{
    if fields.len() > 0 {
        let front = fields.drop_last();
        assert forall|i: int, j: int| 0 <= i < j < front.len() implies (#[trigger] front[i]).0@ != (
        #[trigger] front[j]).0@ by {
            assert(front[i] == fields[i] && front[j] == fields[j]);
        }
        lemma_struct_members(front);
        let members = struct_json(front);
        let key = fields.last().0@;
        assert forall|k: int| 0 <= k < members.len() implies (#[trigger] members[k]).0 != key by {
            assert(front[k] == fields[k]);
            assert(fields[k].0@ != fields[fields.len() - 1].0@);
        }
        lemma_absent_member(members, key, 0);
        let all = struct_json(fields);
        assert forall|i: int| 0 <= i < fields.len() implies #[trigger] all[i] == (
            fields[i].0@,
            value_json(fields[i].1),
        ) by {
            if i < fields.len() - 1 {
                assert(all[i] == members[i]);
                assert(front[i] == fields[i]);
            }
        }
    }
}

/// A struct becomes a JSON object of its fields, in order, and is shown as the
/// JSON text of that.
pub proof fn structs_keep_their_fields(fields: Vec<(String, CellValue)>)
    requires
        fields_differ(fields@),
    ensures
        value_json(CellValue::Struct(fields)) is Object,
        ({
            let members = value_json(CellValue::Struct(fields))->Object_0;
            &&& members.len() == fields@.len()
            &&& forall|i: int|
                0 <= i < fields@.len() ==> #[trigger] members[i] == (
                    fields@[i].0@,
                    value_json(fields@[i].1),
                )
        }),
        value_text(CellValue::Struct(fields)) == json_text(value_json(CellValue::Struct(fields))),
{
    lemma_struct_members(fields@);
}

/// The keys are shown by different texts.
pub open spec fn keys_differ(entries: Seq<(CellValue, CellValue)>) -> bool {
    forall|i: int, j: int|
        0 <= i < j < entries.len() ==> value_text((#[trigger] entries[i]).0) != value_text(
            (#[trigger] entries[j]).0,
        )
}

proof fn lemma_map_members(entries: Seq<(CellValue, CellValue)>)
    requires
        keys_differ(entries),
    ensures
        map_json(entries).len() == entries.len(),
        forall|i: int|
            0 <= i < entries.len() ==> #[trigger] map_json(entries)[i] == (
                value_text(entries[i].0),
                value_json(entries[i].1),
            ),
    decreases entries.len(),
{
    if entries.len() > 0 {
        let front = entries.drop_last();
        assert forall|i: int, j: int| 0 <= i < j < front.len() implies value_text(
            (#[trigger] front[i]).0,
        ) != value_text((#[trigger] front[j]).0) by {
            assert(front[i] == entries[i] && front[j] == entries[j]);
        }
        lemma_map_members(front);
        let members = map_json(front);
        let key = value_text(entries.last().0);
        assert(value_text_of_key(entries.last().0) == key);
        assert forall|k: int| 0 <= k < members.len() implies (#[trigger] members[k]).0 != key by {
            assert(front[k] == entries[k]);
            assert(value_text(entries[k].0) != value_text(entries[entries.len() - 1].0));
        }
        lemma_absent_member(members, key, 0);
        let all = map_json(entries);
        assert forall|i: int| 0 <= i < entries.len() implies #[trigger] all[i] == (
            value_text(entries[i].0),
            value_json(entries[i].1),
        ) by {
            if i < entries.len() - 1 {
                assert(all[i] == members[i]);
                assert(front[i] == entries[i]);
            }
        }
    }
}

/// A map becomes a JSON object of its entries, in order, with the texts of its
/// keys, and is shown as the JSON text of that.
pub proof fn maps_keep_their_entries(entries: Vec<(CellValue, CellValue)>)
    requires
        keys_differ(entries@),
    ensures
        value_json(CellValue::Mapping(entries)) is Object,
        ({
            let members = value_json(CellValue::Mapping(entries))->Object_0;
            &&& members.len() == entries@.len()
            &&& forall|i: int|
                0 <= i < entries@.len() ==> #[trigger] members[i] == (
                    value_text(entries@[i].0),
                    value_json(entries@[i].1),
                )
        }),
        value_text(CellValue::Mapping(entries)) == json_text(
            value_json(CellValue::Mapping(entries)),
        ),
{
    lemma_map_members(entries@);
}

/// A union is the value that it holds, and is shown, as an enum is, as JSON text.
pub proof fn unions_are_what_they_hold(inner: Box<CellValue>, s: String)
    ensures
        value_json(CellValue::Union(inner)) == value_json(*inner),
        value_text(CellValue::Union(inner)) == json_text(value_json(*inner)),
        value_text(CellValue::Enum(s)) == json_text(JsonTree::Text(s@)),
{
}

} // verus!
