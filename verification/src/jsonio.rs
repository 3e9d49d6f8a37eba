//! The boundary to serde_json: parsing a metadata block into a JSON value and
//! reading its members. The parsed value is opaque; `json_code` names the
//! data it holds, and every probe is specified against that name.

use vstd::prelude::*;

verus! {

#[verifier::external_type_specification]
#[verifier::external_body]
pub struct ExJsonValue(serde_json::Value);

/// An abstract code for the data a parsed JSON value holds; probes of equal
/// codes agree.
pub uninterp spec fn json_code(v: serde_json::Value) -> nat;

/// The code of the value that parsing a given text yields; parsing is a
/// function of the text alone.
pub uninterp spec fn spec_json_parse(s: Seq<char>) -> nat;

/// Whether a given text parses as JSON.
pub uninterp spec fn spec_json_parses(s: Seq<char>) -> bool;

/// A JSON object member as the metadata schema sees it: absent, `null`, a
/// string, a boolean, a number (carried as its decimal text), or some other
/// JSON value.
pub enum JsonField {
    Missing,
    Null,
    Text(String),
    Flag(bool),
    Number(String),
    Other,
}

/// What `json_field` returns for a member name, as a function of the value's
/// code and the name.
pub uninterp spec fn spec_json_field(code: nat, key: Seq<char>) -> JsonField;

/// Whether the value with the given code is a JSON object.
pub uninterp spec fn spec_json_is_object(code: nat) -> bool;

/// Relies on serde_json::from_str::<Value>: the result is a pure function of
/// the input text; an error is carried as its message.
#[verifier::external_body]
pub fn parse_json(s: &str) -> (r: Result<serde_json::Value, String>)
    ensures
        r is Ok <==> spec_json_parses(s@),
        r matches Ok(v) ==> json_code(v) == spec_json_parse(s@),
{
    serde_json::from_str::<serde_json::Value>(s).map_err(|e| e.to_string())
}

/// Relies on serde_json::Value::is_object.
#[verifier::external_body]
pub fn json_is_object(v: &serde_json::Value) -> (r: bool)
    ensures
        r == spec_json_is_object(json_code(*v)),
{
    v.is_object()
}

/// Relies on serde_json::Value::get with a string key: returns the named
/// member classified by its JSON type, with string, boolean and number
/// payloads carried over.
#[verifier::external_body]
pub fn json_field(v: &serde_json::Value, key: &str) -> (r: JsonField)
    ensures
        r == spec_json_field(json_code(*v), key@),
{
    match v.get(key) {
        None => JsonField::Missing,
        Some(serde_json::Value::Null) => JsonField::Null,
        Some(serde_json::Value::String(s)) => JsonField::Text(s.clone()),
        Some(serde_json::Value::Bool(b)) => JsonField::Flag(*b),
        Some(serde_json::Value::Number(n)) => JsonField::Number(n.to_string()),
        Some(_) => JsonField::Other,
    }
}

} // verus!
