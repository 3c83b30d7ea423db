//! The JSON boundary: every log line is a JSON document, and the library
//! reads single fields out of such documents through `serde_json`.
//!
//! What a lookup returns is a function of the document bytes and the key
//! alone, so each lookup's result is given a name (an uninterpreted spec
//! function), and the wrapper around the `serde_json` call is trusted to
//! return exactly that named value.  All classification logic built on top
//! of these lookups is verified.

use vstd::prelude::*;

verus! {

/// Whether `doc` parses as a JSON document.
pub uninterp spec fn json_wf(doc: Seq<u8>) -> bool;

/// The string value at top-level key `key` of the JSON document `doc`,
/// when `doc` parses, has an object with that key, and the value is a string.
pub uninterp spec fn json_str_field(doc: Seq<u8>, key: Seq<char>) -> Option<Seq<char>>;

/// The string value at `doc[key1][key2]`, under the same conditions.
pub uninterp spec fn json_str_field2(doc: Seq<u8>, key1: Seq<char>, key2: Seq<char>) -> Option<
    Seq<char>,
>;

/// The unsigned integer value at top-level key `key` of `doc`.
pub uninterp spec fn json_u64_field(doc: Seq<u8>, key: Seq<char>) -> Option<u64>;

/// The number of elements of the array at `doc[key1][key2]`.
pub uninterp spec fn json_arr_len(doc: Seq<u8>, key1: Seq<char>, key2: Seq<char>) -> Option<usize>;

/// The string value at `doc[key1][key2][idx][key3]`.
pub uninterp spec fn json_arr_str(
    doc: Seq<u8>,
    key1: Seq<char>,
    key2: Seq<char>,
    idx: usize,
    key3: Seq<char>,
) -> Option<Seq<char>>;

/// The number of elements of the array at `doc[idx][key]`.
pub uninterp spec fn json_elem_arr_len(doc: Seq<u8>, idx: usize, key: Seq<char>) -> Option<usize>;

/// Relies on `serde_json::from_slice::<Value>`: whether the bytes form a JSON
/// document depends on the bytes alone.
#[verifier::external_body]
pub fn json_is_valid(doc: &[u8]) -> (r: bool)
    ensures
        r == json_wf(doc@),
{
    serde_json::from_slice::<serde_json::Value>(doc).is_ok()
}

/// Relies on `serde_json::from_slice`, `Value::get` and `Value::as_str`:
/// the string at a top-level key, a function of the bytes and the key alone.
#[verifier::external_body]
pub fn json_get_str(doc: &[u8], key: &str) -> (r: Option<String>)
    ensures
        r is Some <==> json_str_field(doc@, key@) is Some,
        r matches Some(s) ==> json_str_field(doc@, key@) == Some(s@),
{
    match serde_json::from_slice::<serde_json::Value>(doc) {
        Ok(v) => v.get(key).and_then(|f| f.as_str()).map(|s| s.to_string()),
        Err(_) => None,
    }
}

/// Relies on `serde_json::from_slice`, `Value::get` and `Value::as_str`:
/// the string two keys deep, a function of the bytes and the keys alone.
#[verifier::external_body]
pub fn json_get_str2(doc: &[u8], key1: &str, key2: &str) -> (r: Option<String>)
    ensures
        r is Some <==> json_str_field2(doc@, key1@, key2@) is Some,
        r matches Some(s) ==> json_str_field2(doc@, key1@, key2@) == Some(s@),
{
    match serde_json::from_slice::<serde_json::Value>(doc) {
        Ok(v) => v.get(key1).and_then(|f| f.get(key2)).and_then(|f| f.as_str()).map(
            |s| s.to_string(),
        ),
        Err(_) => None,
    }
}

/// Relies on `serde_json::from_slice`, `Value::get` and `Value::as_u64`:
/// the integer at a top-level key, when the value is an integer that fits
/// in `u64`; a function of the bytes and the key alone.
#[verifier::external_body]
pub fn json_get_u64(doc: &[u8], key: &str) -> (r: Option<u64>)
    ensures
        r == json_u64_field(doc@, key@),
{
    match serde_json::from_slice::<serde_json::Value>(doc) {
        Ok(v) => v.get(key).and_then(|f| f.as_u64()),
        Err(_) => None,
    }
}

/// Relies on `serde_json::from_slice`, `Value::get` and `Value::as_array`:
/// the length of the array two keys deep, a function of the bytes and the
/// keys alone.
#[verifier::external_body]
pub fn json_get_arr_len(doc: &[u8], key1: &str, key2: &str) -> (r: Option<usize>)
    ensures
        r == json_arr_len(doc@, key1@, key2@),
{
    match serde_json::from_slice::<serde_json::Value>(doc) {
        Ok(v) => v.get(key1).and_then(|m| m.get(key2)).and_then(|c| c.as_array()).map(
            |a| a.len(),
        ),
        Err(_) => None,
    }
}

/// Relies on `serde_json::from_slice`, `Value::get`, `Value::as_array` and
/// `Value::as_str`: the string under `key3` of the `idx`-th element of the
/// array two keys deep; a function of the bytes, the keys and the index.
#[verifier::external_body]
pub fn json_get_arr_str(doc: &[u8], key1: &str, key2: &str, idx: usize, key3: &str) -> (r: Option<
    String,
>)
    ensures
        r is Some <==> json_arr_str(doc@, key1@, key2@, idx, key3@) is Some,
        r matches Some(s) ==> json_arr_str(doc@, key1@, key2@, idx, key3@) == Some(s@),
{
    match serde_json::from_slice::<serde_json::Value>(doc) {
        Ok(v) => v.get(key1).and_then(|m| m.get(key2)).and_then(|c| c.as_array()).and_then(
            |a| a.get(idx),
        ).and_then(|b| b.get(key3)).and_then(|f| f.as_str()).map(|s| s.to_string()),
        Err(_) => None,
    }
}

/// Relies on `serde_json::from_slice`, `Value::get` and `Value::as_array`:
/// the length of the array under `key` of the `idx`-th element of a root
/// array; a function of the bytes, the index and the key alone.
#[verifier::external_body]
pub fn json_get_elem_arr_len(doc: &[u8], idx: usize, key: &str) -> (r: Option<usize>)
    ensures
        r == json_elem_arr_len(doc@, idx, key@),
{
    match serde_json::from_slice::<serde_json::Value>(doc) {
        Ok(v) => v.get(idx).and_then(|q| q.get(key)).and_then(|o| o.as_array()).map(|a| a.len()),
        Err(_) => None,
    }
}

} // verus!
