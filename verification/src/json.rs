//! The few reads of JSON component values the engine makes, through the
//! JSON crate's accessors.
use vstd::prelude::*;

verus! {

/// What `serde_json::Value::get(key)` returns: the member `key` of a JSON
/// object.
pub uninterp spec fn json_member(v: serde_json::Value, key: Seq<char>) -> Option<serde_json::Value>;

/// What `serde_json::Value::as_u64` returns.
pub uninterp spec fn json_as_u64(v: serde_json::Value) -> Option<u64>;

/// What `serde_json::Value::as_str` returns, by its characters.
pub uninterp spec fn json_as_str(v: serde_json::Value) -> Option<Seq<char>>;

/// What `serde_json::Value::as_bool` returns.
pub uninterp spec fn json_as_bool(v: serde_json::Value) -> Option<bool>;

/// Trusted: calls `serde_json::Value::get`, whose result is determined by
/// the value and the key ([`json_member`]); which member that is for a given
/// value is not stated.
#[verifier::external_body]
pub(crate) fn member<'a>(v: &'a serde_json::Value, key: &str) -> (r: Option<&'a serde_json::Value>)
    ensures
        match r {
            Some(m) => json_member(*v, key@) == Some(*m),
            None => json_member(*v, key@) is None,
        },
{
    v.get(key)
}

/// Trusted: calls `serde_json::Value::as_u64`, whose result is determined by
/// the value ([`json_as_u64`]).
#[verifier::external_body]
pub(crate) fn as_u64(v: &serde_json::Value) -> (r: Option<u64>)
    ensures
        r == json_as_u64(*v),
{
    v.as_u64()
}

/// Trusted: calls `serde_json::Value::as_str`, whose result is determined by
/// the value ([`json_as_str`]).
#[verifier::external_body]
pub(crate) fn as_str(v: &serde_json::Value) -> (r: Option<&str>)
    ensures
        match r {
            Some(s) => json_as_str(*v) == Some(s@),
            None => json_as_str(*v) is None,
        },
{
    v.as_str()
}

/// Trusted: calls `serde_json::Value::as_bool`, whose result is determined by
/// the value ([`json_as_bool`]).
#[verifier::external_body]
pub(crate) fn as_bool(v: &serde_json::Value) -> (r: Option<bool>)
    ensures
        r == json_as_bool(*v),
{
    v.as_bool()
}

} // verus!
