//! JSON documents. A document is a `serde_json::Value`; contracts speak of what it
//! holds as a [`Json`].

use serde_json::Value;
use vstd::prelude::*;

verus! {

/// What a JSON document holds. A number is held as its JSON text, an object as the
/// map from its field names.
pub enum Json {
    Null,
    Bool(bool),
    Number(Seq<char>),
    Text(Seq<char>),
    Array(Seq<Json>),
    Object(Map<Seq<char>, Json>),
}

/// The JSON document type of serde_json.
#[verifier::external_type_specification]
#[verifier::external_body]
pub struct ExValue(serde_json::Value);

/// What a document holds.
pub uninterp spec fn json_view(value: serde_json::Value) -> Json;

/// What `serde_json::from_str` makes of a text: the document that the text writes
/// down, or the text of the parser's complaint.
pub uninterp spec fn json_parse(text: Seq<char>) -> Result<Json, Seq<char>>;

/// What `serde_json::to_string` gives for a document: its text, or the text of the
/// complaint.
pub uninterp spec fn json_text(document: Json) -> Result<Seq<char>, Seq<char>>;

/// `serde_json::Value::clone`: the copy holds what the document holds.
pub assume_specification[ <serde_json::Value as Clone>::clone ](value: &Value) -> (r: Value)
    ensures
        json_view(r) == json_view(*value),
;

/// `serde_json::Value::default`: the null document.
pub assume_specification[ <serde_json::Value as Default>::default ]() -> (r: Value)
    ensures
        json_view(r) == Json::Null,
;

/// `serde_json::from_str`: the outcome is a function of the text.
#[verifier::external_body]
pub(crate) fn parse(text: &str) -> (r: Result<Value, String>)
    ensures
        match r {
            Ok(value) => json_parse(text@) == Ok::<Json, Seq<char>>(json_view(value)),
            Err(complaint) => json_parse(text@) == Err::<Json, Seq<char>>(complaint@),
        },
{
    match serde_json::from_str(text) {
        Ok(value) => Ok(value),
        Err(e) => Err(e.to_string()),
    }
}

/// The text of a whole number: it has neither a fraction nor an exponent.
pub open spec fn is_whole(number: Seq<char>) -> bool {
    !number.contains('.') && !number.contains('e') && !number.contains('E')
}

/// The document has no numbers but whole ones, and its arrays and objects are nested at
/// most `depth` deep.
pub open spec fn is_plain(document: Json, depth: nat) -> bool
    decreases depth,
{
    match document {
        Json::Number(number) => is_whole(number),
        Json::Array(items) => depth > 0 && forall|i: int|
            0 <= i < items.len() ==> #[trigger] is_plain(items[i], (depth - 1) as nat),
        Json::Object(fields) => depth > 0 && forall|name: Seq<char>|
            fields.contains_key(name) ==> #[trigger] is_plain(fields[name], (depth - 1) as nat),
        _ => true,
    }
}

/// `serde_json::to_string` on a document: the outcome is a function of what the
/// document holds. A plain document is printed, and `serde_json::from_str` makes the same
/// document of the text. Of other documents that is not claimed: a number with a fraction
/// may be read back with another last digit, and what is nested too deep is not read.
#[verifier::external_body]
pub(crate) fn print(value: &Value) -> (r: Result<String, String>)
    ensures
        match r {
            Ok(text) => {
                &&& json_text(json_view(*value)) == Ok::<Seq<char>, Seq<char>>(text@)
                &&& is_plain(json_view(*value), 100) ==> json_parse(text@) == Ok::<
                    Json,
                    Seq<char>,
                >(json_view(*value))
            },
            Err(complaint) => {
                &&& json_text(json_view(*value)) == Err::<Seq<char>, Seq<char>>(complaint@)
                &&& !is_plain(json_view(*value), 100)
            },
        },
{
    match serde_json::to_string(value) {
        Ok(text) => Ok(text),
        Err(e) => Err(e.to_string()),
    }
}

/// The field `name` of a document, if the document is an object that has it.
pub open spec fn json_field(document: Json, name: Seq<char>) -> Option<Json> {
    match document {
        Json::Object(fields) => if fields.contains_key(name) {
            Some(fields[name])
        } else {
            None
        },
        _ => None,
    }
}

/// The document with its field `name` set; only an object has fields.
pub open spec fn json_with_field(document: Json, name: Seq<char>, value: Json) -> Json {
    match document {
        Json::Object(fields) => Json::Object(fields.insert(name, value)),
        _ => document,
    }
}

/// `serde_json::Value::get` with a field name: the field of an object, and nothing
/// for a field that is not there or a document that is no object.
#[verifier::external_body]
pub(crate) fn field<'a>(value: &'a Value, name: &str) -> (r: Option<&'a Value>)
    ensures
        match r {
            Some(inner) => json_field(json_view(*value), name@) == Some(json_view(*inner)),
            None => json_field(json_view(*value), name@) is None,
        },
{
    value.get(name)
}

/// `serde_json::Value::get_mut` with a field name: as [`field`], and what is written
/// through the reference becomes the field's value.
#[verifier::external_body]
pub(crate) fn field_mut<'a>(value: &'a mut Value, name: &str) -> (r: Option<&'a mut Value>)
    ensures
        match r {
            Some(inner) => {
                &&& json_field(json_view(*old(value)), name@) == Some(json_view(*inner))
                &&& json_view(*final(value)) == json_with_field(
                    json_view(*old(value)),
                    name@,
                    json_view(*final(inner)),
                )
            },
            None => {
                &&& json_field(json_view(*old(value)), name@) is None
                &&& json_view(*final(value)) == json_view(*old(value))
            },
        },
{
    value.get_mut(name)
}

/// `serde_json::Value::as_object_mut` and `serde_json::Map::insert`: sets a field of
/// an object; a document that is no object stays as it is. The result says which.
#[verifier::external_body]
pub(crate) fn set_field(value: &mut Value, name: &str, inner: Value) -> (r: bool)
    ensures
        r == (json_view(*old(value)) is Object),
        json_view(*final(value)) == json_with_field(json_view(*old(value)), name@, json_view(inner)),
{
    match value.as_object_mut() {
        Some(fields) => {
            fields.insert(name.to_string(), inner);
            true
        },
        None => false,
    }
}

} // verus!
