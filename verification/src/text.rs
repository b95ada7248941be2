//! Text on the wire: UTF-8, as the standard library reads it.

use vstd::prelude::*;
use vstd::utf8::{encode_utf8, valid_utf8};

verus! {

/// Reads bytes as text with `core::str::from_utf8`.
///
/// Trusted, not proved: that function accepts exactly the byte sequences that
/// are valid UTF-8, and the text it returns is written as the very bytes it
/// was given.
#[verifier::external_body]
pub(crate) fn text_of(bytes: &[u8]) -> (text: Option<&str>)
    ensures
        text is Some <==> valid_utf8(bytes@),
        text matches Some(t) ==> encode_utf8(t@) == bytes@,
{
    match core::str::from_utf8(bytes) {
        Ok(text) => Some(text),
        Err(_) => None,
    }
}

} // verus!
