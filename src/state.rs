//! The free-form state of a ticket: a JSON object that accepted requests
//! extend.

use vstd::prelude::*;

verus! {

#[verifier::external_type_specification]
#[verifier::external_body]
pub struct ExValue(serde_json::Value);

#[verifier::external_type_specification]
#[verifier::external_body]
#[verifier::reject_recursive_types(K)]
#[verifier::reject_recursive_types(V)]
pub struct ExMap<K, V>(serde_json::Map<K, V>);

/// A JSON object.
pub type JsonObject = serde_json::Map<String, serde_json::Value>;

/// The entries of a JSON object, by key.
pub uninterp spec fn entries(m: serde_json::Map<String, serde_json::Value>) -> Map<
    Seq<char>,
    serde_json::Value,
>;

/// Relies on serde_json::Map::append: every entry of `other` moves into
/// `m`, replacing the entry of `m` with the same key.
#[verifier::external_body]
fn append_entries(m: JsonObject, other: JsonObject) -> (r: JsonObject)
    ensures
        entries(r) == entries(m).union_prefer_right(entries(other)),
{
    let mut m = m;
    let mut other = other;
    m.append(&mut other);
    m
}

/// Overlays the payload of an accepted request on the ticket's state: each
/// key of `data` takes the value it has there, the other keys keep theirs.
pub fn merge_state(state: JsonObject, data: Option<JsonObject>) -> (r: JsonObject)
    ensures
        match data {
            Some(d) => entries(r) == entries(state).union_prefer_right(entries(d)),
            None => r == state,
        },
{
    match data {
        Some(d) => append_entries(state, d),
        None => state,
    }
}

} // verus!
