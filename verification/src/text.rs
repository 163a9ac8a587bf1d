//! Strings and UTF-8: what the rest of the library takes from the standard
//! library on trust, and a few facts about encoded text.

use vstd::prelude::*;
use vstd::utf8::{decode_utf8, encode_utf8, valid_utf8};

verus! {

/// Taken on trust from the standard library: `String::push` appends the
/// character to the end of the string and leaves what stood before it as it
/// was.
pub assume_specification[ String::push ](s: &mut String, ch: char)
    ensures
        final(s)@ == old(s)@.push(ch),
;

/// Taken on trust from the standard library: `core::str::from_utf8`
/// accepts a byte string exactly if it is valid UTF-8, and the string slice
/// that it then returns holds the characters that the bytes encode.
#[verifier::external_body]
pub(crate) fn utf8_str(bytes: &[u8]) -> (text: Option<&str>)
    ensures
        text is Some <==> valid_utf8(bytes@),
        text matches Some(s) ==> s@ == decode_utf8(bytes@),
{
    core::str::from_utf8(bytes).ok()
}

/// A text has at least as many bytes in UTF-8 as it has characters.
pub proof fn lemma_utf8_len(chars: Seq<char>)
    ensures
        chars.len() <= encode_utf8(chars).len(),
    decreases chars.len(),
{
    if chars.len() > 0 {
        lemma_utf8_len(chars.drop_first());
    }
}

} // verus!
