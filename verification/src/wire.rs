//! JSON values as the web front end reads and sends them.

use serde_json::{Map as Members, Value as JsonValue};
use vstd::prelude::*;

use crate::number::decimal_int;

verus! {

/// What a JSON value says. The order of an object's members does not count.
pub enum JsonTree {
    Null,
    Boolean(bool),
    /// A number, as the text it is displayed as.
    Number(Seq<char>),
    Text(Seq<char>),
    List(Seq<JsonTree>),
    Object(Map<Seq<char>, JsonTree>),
}

#[verifier::external_type_specification]
#[verifier::external_body]
pub struct ExJsonValue(JsonValue);

/// What a JSON value says.
pub uninterp spec fn json_tree(value: JsonValue) -> JsonTree;

/// What the JSON reader makes of some bytes: the one value that they are, or
/// why they are none.
pub uninterp spec fn json_read(src: Seq<u8>) -> Result<JsonTree, Seq<char>>;

/// What a read value says, or why there is none.
pub open spec fn read_view(read: Result<JsonValue, String>) -> Result<JsonTree, Seq<char>> {
    match read {
        Ok(value) => Ok(json_tree(value)),
        Err(m) => Err(m@),
    }
}

/// An object with a member set; what is no object stays as it is.
pub open spec fn with_member(tree: JsonTree, key: Seq<char>, value: JsonTree) -> JsonTree {
    match tree {
        JsonTree::Object(members) => JsonTree::Object(members.insert(key, value)),
        _ => tree,
    }
}

/// A number, or null where there is none.
pub open spec fn number_tree(n: Option<i64>) -> JsonTree {
    match n {
        Some(n) => JsonTree::Number(decimal_int(n as int)),
        None => JsonTree::Null,
    }
}

/// `serde_json::from_slice` into a value: the value, or the text of the fault.
/// Both are a function of the bytes.
#[verifier::external_body]
pub(crate) fn read_json(src: &[u8]) -> (r: Result<JsonValue, String>)
    ensures
        json_read(src@) == read_view(r),
{
    serde_json::from_slice(src).map_err(|e| e.to_string())
}

/// `Value::as_object_mut` and `Map::insert`: sets a member of an object, in
/// place of the one of that name if there is one. Any other value stays as it
/// is.
#[verifier::external_body]
pub(crate) fn put_member(object: &mut JsonValue, key: &str, value: JsonValue)
    ensures
        json_tree(*final(object)) == with_member(json_tree(*old(object)), key@, json_tree(value)),
{
    if let Some(members) = object.as_object_mut() {
        members.insert(key.to_string(), value);
    }
}

/// `Map::new`: the object without members.
#[verifier::external_body]
pub(crate) fn empty_object() -> (r: JsonValue)
    ensures
        json_tree(r) == JsonTree::Object(Map::empty()),
{
    JsonValue::Object(Members::new())
}

/// `Value::from` on a string.
#[verifier::external_body]
pub(crate) fn json_text(s: String) -> (r: JsonValue)
    ensures
        json_tree(r) == JsonTree::Text(s@),
{
    JsonValue::from(s)
}

/// `Value::from` on a number that may be missing.
#[verifier::external_body]
pub(crate) fn json_number(n: Option<i64>) -> (r: JsonValue)
    ensures
        json_tree(r) == number_tree(n),
{
    JsonValue::from(n)
}

} // verus!
