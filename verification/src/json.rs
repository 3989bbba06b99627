//! Reading JSON documents through serde_json: the logic asks a document for
//! one member at a time and receives plain values back.

use vstd::prelude::*;

verus! {

/// Whether `doc` parses as a JSON value (`serde_json::from_slice::<Value>`).
pub uninterp spec fn json_valid(doc: Seq<u8>) -> bool;

/// The string held by member `key` of the JSON object `doc`, if `doc`
/// parses and that member is a string.
pub uninterp spec fn json_str_member(doc: Seq<u8>, key: Seq<char>) -> Option<Seq<char>>;

/// The integer held by member `key` of the JSON object `doc`, if `doc`
/// parses and that member is an integer that fits `i64`.
pub uninterp spec fn json_i64_member(doc: Seq<u8>, key: Seq<char>) -> Option<i64>;

/// Member `key` of the JSON object `doc`, written back out as JSON text, if
/// `doc` parses and has that member.
pub uninterp spec fn json_member(doc: Seq<u8>, key: Seq<char>) -> Option<Seq<u8>>;

/// Whether `doc` parses and its member `key` is a JSON array.
pub uninterp spec fn json_array_member(doc: Seq<u8>, key: Seq<char>) -> bool;

/// `serde_json::from_slice::<Value>(doc).is_ok()`. Claimed: the answer is
/// `json_valid(doc)`.
#[verifier::external_body]
pub(crate) fn json_parses(doc: &[u8]) -> (r: bool)
    ensures
        r == json_valid(doc@),
{
    serde_json::from_slice::<serde_json::Value>(doc).is_ok()
}

/// `serde_json::from_slice::<Value>` followed by `Value::get(key)` and
/// `Value::as_str`. Claimed: the answer is `json_str_member(doc, key)`,
/// and there is none unless `doc` parses.
#[verifier::external_body]
pub(crate) fn json_str_at(doc: &[u8], key: &str) -> (r: Option<String>)
    ensures
        r matches Some(s) ==> json_str_member(doc@, key@) == Some(s@),
        r is None ==> json_str_member(doc@, key@) is None,
        r is Some ==> json_valid(doc@),
{
    let v: serde_json::Value = serde_json::from_slice(doc).ok()?;
    v.get(key).and_then(serde_json::Value::as_str).map(|s| s.to_string())
}

/// `serde_json::from_slice::<Value>` followed by `Value::get(key)` and
/// `Value::as_i64`. Claimed: the answer is `json_i64_member(doc, key)`,
/// and there is none unless `doc` parses.
#[verifier::external_body]
pub(crate) fn json_i64_at(doc: &[u8], key: &str) -> (r: Option<i64>)
    ensures
        r == json_i64_member(doc@, key@),
        r is Some ==> json_valid(doc@),
{
    let v: serde_json::Value = serde_json::from_slice(doc).ok()?;
    v.get(key).and_then(serde_json::Value::as_i64)
}

/// `serde_json::from_slice::<Value>` followed by `Value::get(key)` and
/// `serde_json::to_vec` of the member. Claimed: the answer is
/// `json_member(doc, key)`, and there is none unless `doc` parses.
#[verifier::external_body]
pub(crate) fn json_member_at(doc: &[u8], key: &str) -> (r: Option<Vec<u8>>)
    ensures
        r matches Some(m) ==> json_member(doc@, key@) == Some(m@),
        r is None ==> json_member(doc@, key@) is None,
        r is Some ==> json_valid(doc@),
{
    let v: serde_json::Value = serde_json::from_slice(doc).ok()?;
    v.get(key).and_then(|m| serde_json::to_vec(m).ok())
}

/// `serde_json::from_slice::<Value>` followed by `Value::get(key)` and
/// `Value::is_array`. Claimed: the answer is `json_array_member(doc, key)`,
/// and it is false unless `doc` parses.
#[verifier::external_body]
pub(crate) fn json_array_at(doc: &[u8], key: &str) -> (r: bool)
    ensures
        r == json_array_member(doc@, key@),
        r ==> json_valid(doc@),
{
    match serde_json::from_slice::<serde_json::Value>(doc) {
        Ok(v) => v.get(key).is_some_and(serde_json::Value::is_array),
        Err(_) => false,
    }
}

} // verus!
