//! JSON values, as `serde_json` builds and prints them.
//!
//! The values themselves are `serde_json`'s. What is stated here of its
//! functions is taken on trust; everything that is built on them is verified
//! against these statements.

use vstd::prelude::*;

verus! {

/// `serde_json::Value`, a JSON value. Nothing is known of it but what the
/// functions below state.
#[verifier::external_type_specification]
#[verifier::external_body]
pub struct ExJsonValue(serde_json::Value);

/// `serde_json::Map`, the entries of a JSON object. Nothing is known of it but
/// what the functions below state.
#[verifier::external_type_specification]
#[verifier::external_body]
#[verifier::reject_recursive_types(K)]
#[verifier::reject_recursive_types(V)]
pub struct ExJsonMap<K, V>(serde_json::Map<K, V>);

/// A JSON object in the making.
pub type JsonObject = serde_json::Map<String, serde_json::Value>;

/// What a JSON value holds.
pub enum JsonView {
    Null,
    Bool(bool),
    Number(int),
    Text(Seq<char>),
    List(Seq<JsonView>),
    Object(Map<Seq<char>, JsonView>),
}

/// What a `serde_json::Value` holds.
pub uninterp spec fn json_view(value: serde_json::Value) -> JsonView;

/// What a `serde_json::Map` holds: its values by their keys.
pub uninterp spec fn json_entries(object: JsonObject) -> Map<Seq<char>, JsonView>;

/// The text that `serde_json` prints for a value in its compact form.
pub uninterp spec fn json_text(value: JsonView) -> Seq<char>;

/// The entries of an object that has none.
pub open spec fn no_entries() -> Map<Seq<char>, JsonView> {
    Map::empty()
}

/// What a list of values holds.
pub open spec fn json_views(values: Seq<serde_json::Value>) -> Seq<JsonView> {
    values.map_values(|v: serde_json::Value| json_view(v))
}

/// `serde_json::Value::from` for a string slice: it gives the JSON string
/// with the same text.
#[verifier::external_body]
pub(crate) fn text_value(text: &str) -> (value: serde_json::Value)
    ensures
        json_view(value) == JsonView::Text(text@),
{
    serde_json::Value::from(text)
}

/// `serde_json::Value::from` for an `i64`: it gives the JSON number with the
/// same value.
#[verifier::external_body]
pub(crate) fn number_value(number: i64) -> (value: serde_json::Value)
    ensures
        json_view(value) == JsonView::Number(number as int),
{
    serde_json::Value::from(number)
}

/// `serde_json::Value::from` for a `bool`: it gives the JSON boolean.
#[verifier::external_body]
pub(crate) fn bool_value(flag: bool) -> (value: serde_json::Value)
    ensures
        json_view(value) == JsonView::Bool(flag),
{
    serde_json::Value::from(flag)
}

/// `serde_json::Value::from` for a vector of values: it gives the JSON array
/// of these values in their order.
#[verifier::external_body]
pub(crate) fn list_value(items: Vec<serde_json::Value>) -> (value: serde_json::Value)
    ensures
        json_view(value) == JsonView::List(json_views(items@)),
{
    serde_json::Value::from(items)
}

/// `serde_json::Value::from` for a map: it gives the JSON object with the
/// map's entries.
#[verifier::external_body]
pub(crate) fn object_value(object: JsonObject) -> (value: serde_json::Value)
    ensures
        json_view(value) == JsonView::Object(json_entries(object)),
{
    serde_json::Value::from(object)
}

/// `serde_json::Map::new`: it gives a map without entries.
#[verifier::external_body]
pub(crate) fn new_object() -> (object: JsonObject)
    ensures
        json_entries(object) == no_entries(),
{
    serde_json::Map::new()
}

/// `serde_json::Map::insert`: the key holds the value afterwards, whether or
/// not it held one before, and the other entries stay.
#[verifier::external_body]
pub(crate) fn object_insert(object: &mut JsonObject, key: String, value: serde_json::Value)
    ensures
        json_entries(*final(object)) == json_entries(*old(object)).insert(key@, json_view(value)),
{
    object.insert(key, value);
}

/// `to_string` of a `serde_json::Value`: its text in compact form, which
/// depends on nothing but what the value holds.
#[verifier::external_body]
pub(crate) fn value_text(value: &serde_json::Value) -> (text: String)
    ensures
        text@ == json_text(json_view(*value)),
{
    value.to_string()
}

} // verus!
