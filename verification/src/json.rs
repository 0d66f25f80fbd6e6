//! JSON, as the `serde_json` crate holds it. Every call into that crate goes
//! through this file; what a value holds is modelled by `JsonView`.
use vstd::prelude::*;

verus! {

/// What a JSON value is.
pub enum JsonView {
    Null,
    Bool(bool),
    /// A whole number that is not negative, up to 64 bits.
    Count(u64),
    /// Any other number, by how it is written.
    Number(Seq<char>),
    Text(Seq<char>),
    Array(Seq<JsonView>),
    Object(Map<Seq<char>, JsonView>),
}

/// A JSON value.
#[verifier::external_type_specification]
#[verifier::external_body]
pub struct ExValue(serde_json::Value);

/// What a value of the `serde_json` crate holds.
pub uninterp spec fn json_of(value: serde_json::Value) -> JsonView;

/// A value written out in compact form.
pub uninterp spec fn written(value: JsonView) -> Seq<char>;

/// The value that some text spells, if it spells one.
pub uninterp spec fn spelled(s: Seq<char>) -> Option<JsonView>;

/// A whole number.
///
/// `serde_json::Value::from` for `u64`.
#[verifier::external_body]
pub(crate) fn count(n: u64) -> (value: serde_json::Value)
    ensures
        json_of(value) == JsonView::Count(n),
{
    serde_json::Value::from(n)
}

/// A string.
///
/// `serde_json::Value::from` for `&str`.
#[verifier::external_body]
pub(crate) fn string(s: &str) -> (value: serde_json::Value)
    ensures
        json_of(value) == JsonView::Text(s@),
{
    serde_json::Value::from(s)
}

/// An object with nothing in it.
///
/// `serde_json::Value::Object` around `serde_json::Map::new`: "Makes a new empty
/// Map".
#[verifier::external_body]
pub(crate) fn object() -> (value: serde_json::Value)
    ensures
        json_of(value) == JsonView::Object(Map::empty()),
{
    serde_json::Value::Object(serde_json::Map::new())
}

/// Put a value under a key of an object.
///
/// Assignment through `serde_json::Value`'s `IndexMut` with a string: the value
/// takes the place of what the key held, if anything. It panics on a value that
/// is neither an object nor null.
#[verifier::external_body]
pub(crate) fn put(object: &mut serde_json::Value, key: &str, value: serde_json::Value)
    requires
        json_of(*old(object)) is Object,
    ensures
        json_of(*final(object)) == JsonView::Object(
            json_of(*old(object))->Object_0.insert(key@, json_of(value)),
        ),
{
    object[key] = value;
}

/// Write a value out in compact form.
///
/// `serde_json::Value`'s `Display`. The text is a function of the value, keys in
/// order, and is left to the name `written`; it holds no line breaks, since
/// those inside strings are escaped and none are put between values.
#[verifier::external_body]
pub(crate) fn write(value: &serde_json::Value) -> (out: String)
    ensures
        out@ == written(json_of(*value)),
        !out@.contains('\n'),
{
    value.to_string()
}

/// Read a value, if the text is one.
///
/// `serde_json::from_str` into a `serde_json::Value`. The value is a function of
/// the text and is left to the name `spelled`.
#[verifier::external_body]
pub(crate) fn read(s: &str) -> (value: Option<serde_json::Value>)
    ensures
        match value {
            Some(value) => spelled(s@) == Some(json_of(value)),
            None => spelled(s@) is None,
        },
{
    serde_json::from_str(s).ok()
}

/// What a value holds under a key.
pub open spec fn held(value: JsonView, key: Seq<char>) -> Option<JsonView> {
    match value {
        JsonView::Object(fields) => if fields.contains_key(key) {
            Some(fields[key])
        } else {
            None
        },
        _ => None,
    }
}

/// What a value holds under a key: `None` when it is not an object, or has no
/// such key.
///
/// `serde_json::Value::get` with a string, and a copy of what it finds.
#[verifier::external_body]
pub(crate) fn get(value: &serde_json::Value, key: &str) -> (field: Option<serde_json::Value>)
    ensures
        match field {
            Some(field) => held(json_of(*value), key@) == Some(json_of(field)),
            None => held(json_of(*value), key@) is None,
        },
{
    value.get(key).cloned()
}

/// The number a value is, if it is a whole one that is not negative.
///
/// `serde_json::Value::as_u64`: "If the Value is an integer, represent it as u64
/// if possible. Returns None otherwise."
#[verifier::external_body]
pub(crate) fn as_count(value: &serde_json::Value) -> (n: Option<u64>)
    ensures
        n == (match json_of(*value) {
            JsonView::Count(n) => Some(n),
            _ => None,
        }),
{
    value.as_u64()
}

/// An object has what was put under a key, and nothing under any other; what is no
/// object has nothing.
pub proof fn an_object_has_what_was_put_under_a_key(
    fields: Map<Seq<char>, JsonView>,
    key: Seq<char>,
    value: JsonView,
    other: Seq<char>,
)
    ensures
        held(JsonView::Object(fields.insert(key, value)), key) == Some(value),
        other != key ==> held(JsonView::Object(fields.insert(key, value)), other) == held(
            JsonView::Object(fields),
            other,
        ),
        held(JsonView::Object(Map::empty()), key) is None,
        !(value is Object) ==> held(value, key) is None,
{
}

} // verus!
