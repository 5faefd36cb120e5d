//! Text from raw bytes.

use vstd::prelude::*;
use vstd::utf8::*;

verus! {

/// The text that lossy decoding makes of bytes that are not valid UTF-8: the
/// valid parts decoded, each invalid sequence replaced by U+FFFD.
pub uninterp spec fn utf8_repaired(bytes: Seq<u8>) -> Seq<char>;

/// The text that a run of bytes stands for. Valid UTF-8 decodes to its
/// characters; anything else decodes lossily.
pub open spec fn text_of(bytes: Seq<u8>) -> Seq<char> {
    if valid_utf8(bytes) {
        decode_utf8(bytes)
    } else {
        utf8_repaired(bytes)
    }
}

/// Calls `String::from_utf8_lossy` and takes ownership of what it returns.
///
/// Trusted: for valid UTF-8 the result is the text that the bytes encode;
/// for other input it is some text that depends on the bytes alone.
#[verifier::external_body]
pub(crate) fn from_utf8_lossy(bytes: &[u8]) -> (s: String)
    ensures
        valid_utf8(bytes@) ==> s@ == decode_utf8(bytes@),
        !valid_utf8(bytes@) ==> s@ == utf8_repaired(bytes@),
{
    String::from_utf8_lossy(bytes).into_owned()
}

/// Text survives being encoded as UTF-8 and decoded again.
pub proof fn lemma_text_of_encoded(text: Seq<char>)
    ensures
        valid_utf8(encode_utf8(text)),
        text_of(encode_utf8(text)) == text,
{
    encode_utf8_valid_utf8(text);
    encode_utf8_decode_utf8(text);
}

/// Valid UTF-8 decodes to text whose encoding is the same bytes again.
pub proof fn lemma_text_of_valid(bytes: Seq<u8>)
    requires
        valid_utf8(bytes),
    ensures
        encode_utf8(text_of(bytes)) == bytes,
{
    decode_utf8_encode_utf8(bytes);
}

} // verus!
