//! JSON values, and what the library relies on from `serde_json`.
//!
//! A `serde_json::Value` is carried as it is; [`json_of`] names its contents as a
//! mathematical tree, and every function that touches a value states what it does
//! to that tree.

use vstd::prelude::*;

use crate::text::decimal;
use crate::text::same_text;

verus! {

/// `serde_json::Value`, carried as an opaque value whose contents are [`json_of`].
#[verifier::external_type_specification]
#[verifier::external_body]
pub struct ExValue(serde_json::Value);

/// What a JSON value holds. A number is its JSON text; an object has no order.
pub enum Json {
    Null,
    Bool(bool),
    Number(Seq<char>),
    Text(Seq<char>),
    List(Seq<Json>),
    Record(Map<Seq<char>, Json>),
}

/// The contents of a `serde_json::Value`.
pub uninterp spec fn json_of(value: serde_json::Value) -> Json;

/// The bytes `serde_json::to_vec` writes for a value, when it succeeds.
pub uninterp spec fn json_encoding(json: Json) -> Option<Seq<u8>>;

/// The contents of each of several values.
pub open spec fn jsons_of(values: Seq<serde_json::Value>) -> Seq<Json> {
    values.map_values(|value: serde_json::Value| json_of(value))
}

/// One level of a borrowed JSON value.
pub enum Shape<'a> {
    Null,
    Bool(bool),
    Number,
    Text(&'a String),
    List(&'a Vec<serde_json::Value>),
    Record(Vec<(&'a String, &'a serde_json::Value)>),
}

/// Whether `entries` lists the members of `map`, each once.
pub open spec fn lists_members(
    entries: Seq<(&String, &serde_json::Value)>,
    map: Map<Seq<char>, Json>,
) -> bool {
    &&& map.dom().finite()
    &&& forall|i: int, j: int|
        #![trigger entries[i], entries[j]]
        0 <= i < j < entries.len() ==> entries[i].0@ != entries[j].0@
    &&& forall|i: int|
        0 <= i < entries.len() ==> map.contains_key((#[trigger] entries[i]).0@)
            && map[entries[i].0@] == json_of(*entries[i].1)
    &&& forall|key: Seq<char>| #[trigger]
        map.contains_key(key) ==> exists|i: int|
            0 <= i < entries.len() && (#[trigger] entries[i]).0@ == key
}

/// Matches a `serde_json::Value` and hands out its immediate parts: the same variant, with
/// the members of an object listed one by one.
#[verifier::external_body]
pub(crate) fn inspect<'a>(value: &'a serde_json::Value) -> (shape: Shape<'a>)
    ensures
        match shape {
            Shape::Null => json_of(*value) == Json::Null,
            Shape::Bool(b) => json_of(*value) == Json::Bool(b),
            Shape::Number => json_of(*value) is Number,
            Shape::Text(text) => json_of(*value) == Json::Text(text@),
            Shape::List(items) => json_of(*value) == Json::List(jsons_of(items@)),
            Shape::Record(entries) => json_of(*value) matches Json::Record(map) && lists_members(
                entries@,
                map,
            ),
        },
{
    match value {
        serde_json::Value::Null => Shape::Null,
        serde_json::Value::Bool(b) => Shape::Bool(*b),
        serde_json::Value::Number(_) => Shape::Number,
        serde_json::Value::String(text) => Shape::Text(text),
        serde_json::Value::Array(items) => Shape::List(items),
        serde_json::Value::Object(map) => Shape::Record(map.iter().collect()),
    }
}

/// A JSON value to be built from its immediate parts.
pub enum Part {
    Null,
    Bool(bool),
    Count(u64),
    Text(String),
    List(Vec<serde_json::Value>),
    EmptyRecord,
}

/// What a value built from `part` holds.
pub open spec fn part_json(part: Part) -> Json {
    match part {
        Part::Null => Json::Null,
        Part::Bool(b) => Json::Bool(b),
        Part::Count(n) => Json::Number(decimal(n as nat)),
        Part::Text(text) => Json::Text(text@),
        Part::List(items) => Json::List(jsons_of(items@)),
        Part::EmptyRecord => Json::Record(Map::empty()),
    }
}

/// Builds a `serde_json::Value` of the given variant; an integer's JSON text is its decimal
/// digits, and an object starts from `serde_json::Map::new`, which is empty.
#[verifier::external_body]
pub(crate) fn assemble(part: Part) -> (value: serde_json::Value)
    ensures
        json_of(value) == part_json(part),
{
    match part {
        Part::Null => serde_json::Value::Null,
        Part::Bool(b) => serde_json::Value::Bool(b),
        Part::Count(n) => serde_json::Value::Number(serde_json::Number::from(n)),
        Part::Text(text) => serde_json::Value::String(text),
        Part::List(items) => serde_json::Value::Array(items),
        Part::EmptyRecord => serde_json::Value::Object(serde_json::Map::new()),
    }
}

/// `serde_json::Map::insert` on an object: the member is set, the others stay.
#[verifier::external_body]
pub(crate) fn set_member(value: &mut serde_json::Value, key: String, item: serde_json::Value)
    requires
        json_of(*old(value)) is Record,
    ensures
        json_of(*final(value)) == Json::Record(
            json_of(*old(value))->Record_0.insert(key@, json_of(item)),
        ),
{
    if let serde_json::Value::Object(map) = value {
        map.insert(key, item);
    }
}

/// `serde_json::Value::clone` gives a value with the same contents.
pub assume_specification[ <serde_json::Value as Clone>::clone ](value: &serde_json::Value) -> (copy:
    serde_json::Value)
    ensures
        json_of(copy) == json_of(*value),
;

/// `serde_json::to_vec` on a value: the bytes it writes, or nothing where it fails. The
/// compact format puts nothing between tokens and escapes control characters inside
/// texts, so no newline byte is written.
#[verifier::external_body]
pub(crate) fn encode(value: &serde_json::Value) -> (bytes: Option<Vec<u8>>)
    ensures
        match bytes {
            Some(bytes) => json_encoding(json_of(*value)) == Some(bytes@) && !bytes@.contains(10u8),
            None => json_encoding(json_of(*value)) is None,
        },
{
    serde_json::to_vec(value).ok()
}

/// The member of an object named `key`.
pub open spec fn member(json: Json, key: Seq<char>) -> Option<Json> {
    match json {
        Json::Record(map) => if map.contains_key(key) {
            Some(map[key])
        } else {
            None
        },
        _ => None,
    }
}

/// The member of an object named `key`, if the value is an object that has one.
pub fn find_member<'a>(value: &'a serde_json::Value, key: &str) -> (found: Option<
    &'a serde_json::Value,
>)
    ensures
        match found {
            Some(item) => member(json_of(*value), key@) == Some(json_of(*item)),
            None => member(json_of(*value), key@) is None,
        },
{
    match inspect(value) {
        Shape::Record(entries) => {
            let mut i: usize = 0;
            while i < entries.len()
                invariant
                    i <= entries@.len(),
                    json_of(*value) matches Json::Record(map) && lists_members(entries@, map),
                    forall|j: int| 0 <= j < i ==> (#[trigger] entries@[j]).0@ != key@,
                decreases entries.len() - i,
            {
                if same_text(entries[i].0.as_str(), key) {
                    return Some(entries[i].1);
                }
                i = i + 1;
            }
            None
        },
        _ => None,
    }
}

/// A text value.
pub fn text_value(text: String) -> (value: serde_json::Value)
    ensures
        json_of(value) == Json::Text(text@),
{
    assemble(Part::Text(text))
}

/// What values built of parts and listed values hold, and what an object's member is.
pub proof fn law_views_of_json(
    n: u64,
    text: String,
    items: Vec<serde_json::Value>,
    i: int,
    map: Map<Seq<char>, Json>,
    key: Seq<char>,
)
    ensures
        part_json(Part::Null) == Json::Null,
        part_json(Part::Bool(true)) == Json::Bool(true),
        part_json(Part::Bool(false)) == Json::Bool(false),
        part_json(Part::Count(n)) == Json::Number(decimal(n as nat)),
        part_json(Part::Text(text)) == Json::Text(text@),
        part_json(Part::List(items)) is List,
        part_json(Part::List(items))->List_0.len() == items@.len(),
        0 <= i < items@.len() ==> part_json(Part::List(items))->List_0[i] == json_of(items@[i]),
        member(Json::Record(map), key) == if map.contains_key(key) {
            Some(map[key])
        } else {
            None
        },
{
}

} // verus!
