//! JSON objects of plain fields, built and printed by `serde_json`.

use serde_json::Value;
use vstd::prelude::*;

verus! {

/// The error of `serde_json`.
#[verifier::external_type_specification]
#[verifier::external_body]
pub struct ExError(serde_json::Error);

/// A JSON value of `serde_json`.
#[verifier::external_type_specification]
#[verifier::external_body]
pub struct ExValue(Value);

/// The map type of `serde_json`, which holds the fields of a JSON object.
#[verifier::external_type_specification]
#[verifier::external_body]
#[verifier::reject_recursive_types(K)]
#[verifier::reject_recursive_types(V)]
pub struct ExMap<K, V>(serde_json::Map<K, V>);

/// The fields of a JSON object.
pub type JsonObject = serde_json::Map<String, Value>;

/// The value of a plain field.
pub enum FieldView {
    Flag(bool),
    Count(nat),
    Text(Seq<char>),
}

/// Plain fields by their keys.
pub type Fields = Map<Seq<char>, FieldView>;

/// The fields that a JSON object holds.
pub uninterp spec fn object_fields(object: JsonObject) -> Fields;

/// The text that `serde_json::to_string_pretty` prints for an object with
/// these fields.
pub uninterp spec fn pretty_text(fields: Fields) -> Seq<char>;

/// Calls `serde_json::Map::new`: the object holds no field.
#[verifier::external_body]
pub(crate) fn new_object() -> (object: JsonObject)
    ensures
        object_fields(object) == Fields::empty(),
{
    serde_json::Map::new()
}

/// Calls `serde_json::Map::insert` with a boolean: the object holds it under
/// `key` afterwards, in place of what was there, and its other fields stay.
#[verifier::external_body]
pub(crate) fn set_flag(object: &mut JsonObject, key: &str, flag: bool)
    ensures
        object_fields(*final(object)) == object_fields(*old(object)).insert(
            key@,
            FieldView::Flag(flag),
        ),
{
    object.insert(key.to_string(), Value::from(flag));
}

/// Calls `serde_json::Map::insert` with a number: the object holds it under
/// `key` afterwards, in place of what was there, and its other fields stay.
#[verifier::external_body]
pub(crate) fn set_count(object: &mut JsonObject, key: &str, count: usize)
    ensures
        object_fields(*final(object)) == object_fields(*old(object)).insert(
            key@,
            FieldView::Count(count as nat),
        ),
{
    object.insert(key.to_string(), Value::from(count));
}

/// Calls `serde_json::Map::insert` with a string: the object holds it under
/// `key` afterwards, in place of what was there, and its other fields stay.
#[verifier::external_body]
pub(crate) fn set_text(object: &mut JsonObject, key: &str, text: &str)
    ensures
        object_fields(*final(object)) == object_fields(*old(object)).insert(
            key@,
            FieldView::Text(text@),
        ),
{
    object.insert(key.to_string(), Value::from(text));
}

/// Calls `serde_json::to_string_pretty` on the object. Printing into a string
/// fails only for values that refuse to be serialised and for keys that are
/// not strings, and a JSON object has neither; the map keeps its keys sorted,
/// so the text depends on the fields alone.
#[verifier::external_body]
pub(crate) fn to_string_pretty(object: JsonObject) -> (printed: serde_json::Result<String>)
    ensures
        printed is Ok,
        printed->Ok_0@ == pretty_text(object_fields(object)),
{
    serde_json::to_string_pretty(&Value::Object(object))
}

} // verus!
