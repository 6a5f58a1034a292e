//! Conversion of PDF byte strings into Rust strings.
use vstd::prelude::*;
use vstd::utf8::*;

verus! {

/// The characters that `String::from_utf8_lossy` produces for `bytes`:
/// valid UTF-8 is decoded, each invalid sequence becomes U+FFFD.
pub uninterp spec fn utf8_lossy(bytes: Seq<u8>) -> Seq<char>;

/// Decodes bytes as UTF-8 with `String::from_utf8_lossy`. The result is a
/// function of the bytes alone; on valid UTF-8 it is the plain decoding, as
/// the function's documentation states.
#[verifier::external_body]
pub fn lossy_string(bytes: &[u8]) -> (s: String)
    ensures
        s@ == utf8_lossy(bytes@),
        valid_utf8(bytes@) ==> s@ == decode_utf8(bytes@),
{
    String::from_utf8_lossy(bytes).into_owned()
}

/// Checks UTF-8 validity with `std::str::from_utf8`, which accepts exactly
/// the well-formed UTF-8 sequences (no overlong forms, no surrogates, no
/// scalar above U+10FFFF), the same set that `valid_utf8` describes.
#[verifier::external_body]
pub fn is_valid_utf8(bytes: &[u8]) -> (r: bool)
    ensures
        r == valid_utf8(bytes@),
{
    std::str::from_utf8(bytes).is_ok()
}

/// The UTF-8 encoding of a string slice; what `as_bytes` returns.
pub open spec fn utf8(s: &str) -> Seq<u8> {
    encode_utf8(s@)
}

/// An ASCII string slice is encoded one byte per character.
pub proof fn lemma_ascii_utf8(s: &str)
    requires
        is_ascii_chars(s@),
    ensures
        utf8(s) == s@.map_values(|c: char| c as u8),
{
    is_ascii_chars_encode_utf8(s@);
    assert(utf8(s) =~= s@.map_values(|c: char| c as u8));
}

/// The UTF-8 bytes of the lossy decoding of `bytes`.
pub open spec fn lossy_bytes(bytes: Seq<u8>) -> Seq<u8> {
    encode_utf8(utf8_lossy(bytes))
}

/// Bytes of a string slice, copied.
pub fn str_bytes(s: &str) -> (r: Vec<u8>)
    ensures
        r@ == encode_utf8(s@),
{
    let b = s.as_bytes();
    crate::bytes::slice_range(b, 0, b.len())
}

/// Replaces `bytes` by the UTF-8 encoding of their lossy decoding.
pub fn lossy_utf8_bytes(bytes: &[u8]) -> (r: Vec<u8>)
    ensures
        r@ == lossy_bytes(bytes@),
        valid_utf8(r@),
        valid_utf8(bytes@) ==> r@ == bytes@,
{
    let s = lossy_string(bytes);
    let r = str_bytes(s.as_str());
    proof {
        encode_utf8_valid_utf8(s@);
        if valid_utf8(bytes@) {
            decode_utf8_encode_utf8(bytes@);
        }
    }
    r
}

/// A string holding exactly the characters that valid UTF-8 bytes encode.
pub fn string_from_utf8(bytes: &[u8]) -> (s: String)
    requires
        valid_utf8(bytes@),
    ensures
        s@ == decode_utf8(bytes@),
        encode_utf8(s@) == bytes@,
{
    let s = lossy_string(bytes);
    proof {
        decode_utf8_encode_utf8(bytes@);
    }
    s
}

} // verus!
