//! Bytes as text. A status record is a file of bytes; the affinity pattern
//! is matched against text.

use vstd::prelude::*;
use vstd::utf8::*;

verus! {

/// The bytes of a text of ASCII characters, one for each character.
pub open spec fn ascii_bytes(text: Seq<char>) -> Seq<u8> {
    Seq::new(text.len(), |i: int| text[i] as u8)
}

/// Reads `bytes` as UTF-8 text with `core::str::from_utf8`. The claim is that
/// the call succeeds exactly on well-formed UTF-8, and that the text it hands
/// out is the one those bytes encode.
#[verifier::external_body]
pub(crate) fn text_of(bytes: &[u8]) -> (text: Option<&str>)
    ensures
        text is Some <==> valid_utf8(bytes@),
        text matches Some(t) ==> t@ == decode_utf8(bytes@),
{
    core::str::from_utf8(bytes).ok()
}

} // verus!
