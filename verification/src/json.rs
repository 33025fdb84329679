//! The strings of a record are written and read by `serde_json`. What it
//! returns is taken on trust here, and only here: the functions below state
//! that a call's result depends on its argument alone, and nothing about
//! what the result is. Whatever the store needs to know of a result it
//! checks at run time, on the bytes.

use vstd::prelude::*;

verus! {

/// The error type of `serde_json`. Nothing is known of a value of it.
#[verifier::external_type_specification]
#[verifier::external_body]
pub struct ExJsonError(serde_json::Error);

/// The JSON text that `serde_json::to_vec` gives for the string `s`; `None`
/// where it gives an error.
pub uninterp spec fn json_quote(s: Seq<char>) -> Option<Seq<u8>>;

/// The string that `serde_json::from_slice` reads from the JSON text
/// `text`; `None` where it gives an error.
pub uninterp spec fn json_unquote(text: Seq<u8>) -> Option<Seq<char>>;

/// Calls `serde_json::to_vec` on a string. Claimed of it: what it returns
/// depends on the string alone; that result is `json_quote` of the string.
#[verifier::external_body]
pub(crate) fn quote(s: &str) -> (r: Result<Vec<u8>, serde_json::Error>)
    ensures
        r is Ok ==> json_quote(s@) == Some(r->Ok_0@),
        r is Err ==> json_quote(s@) is None,
{
    serde_json::to_vec(s)
}

/// Calls `serde_json::from_slice` to read a `String`. Claimed of it: what
/// it returns depends on the bytes alone; that result is `json_unquote` of
/// the bytes.
#[verifier::external_body]
pub(crate) fn unquote(text: &[u8]) -> (r: Result<String, serde_json::Error>)
    ensures
        r is Ok ==> json_unquote(text@) == Some(r->Ok_0@),
        r is Err ==> json_unquote(text@) is None,
{
    serde_json::from_slice::<String>(text)
}

} // verus!
