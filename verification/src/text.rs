//! Text from bytes.

use vstd::prelude::*;
use vstd::utf8::{valid_utf8, encode_utf8};

verus! {

/// The text that `bytes` encode, where they are valid UTF-8.
///
/// Trusted: this is `String::from_utf8` of std, which returns an error
/// exactly where the bytes are not valid UTF-8 and otherwise the string that
/// holds those very bytes.
#[verifier::external_body]
pub(crate) fn string_from_utf8(bytes: Vec<u8>) -> (r: Option<String>)
    ensures
        r is Some <==> valid_utf8(bytes@),
        r matches Some(s) ==> encode_utf8(s@) == bytes@,
{
    match String::from_utf8(bytes) {
        Ok(s) => Some(s),
        Err(_) => None,
    }
}

/// Whether `text` is what `bytes` read as: the string that they encode, or
/// `fallback` where they are not valid UTF-8.
pub open spec fn reads_as(text: Seq<char>, bytes: Seq<u8>, fallback: Seq<char>) -> bool {
    if valid_utf8(bytes) {
        encode_utf8(text) == bytes
    } else {
        text == fallback
    }
}

/// The string that `bytes` encode, or `fallback` where they are not valid
/// UTF-8.
pub fn string_or(bytes: Vec<u8>, fallback: &str) -> (r: String)
    ensures
        reads_as(r@, bytes@, fallback@),
{
    match string_from_utf8(bytes) {
        Some(s) => s,
        None => fallback.to_owned(),
    }
}

} // verus!
