//! Base64 (standard alphabet, padded), through the `base64` crate.

use vstd::prelude::*;
use base64::Engine;

verus! {

/// Longest input accepted for encoding: its encoded length must fit in a
/// `usize`.
pub const MAX_ENCODE_INPUT: usize = usize::MAX / 2;

/// The standard padded base64 text of `b`.
pub uninterp spec fn base64_of(b: Seq<u8>) -> Seq<char>;

/// What decoding `s` as standard padded base64 gives, where it decodes.
pub uninterp spec fn bytes_of_base64(s: Seq<char>) -> Option<Seq<u8>>;

/// A character of the standard base64 alphabet, or the padding `=`.
pub open spec fn is_base64_char(c: char) -> bool {
    ('A' <= c <= 'Z') || ('a' <= c <= 'z') || ('0' <= c <= '9') || c == '+' || c == '/'
        || c == '='
}

/// Relies on `base64::engine::general_purpose::STANDARD.encode`: the text
/// uses only the alphabet and padding, an empty input gives an empty text,
/// and decoding the text with the same engine gives the input back.
#[verifier::external_body]
pub(crate) fn encode_base64(b: &[u8]) -> (r: String)
    requires
        b@.len() <= MAX_ENCODE_INPUT,
    ensures
        r@ == base64_of(b@),
        forall|i: int| 0 <= i < r@.len() ==> is_base64_char(#[trigger] r@[i]),
        b@.len() == 0 ==> r@.len() == 0,
        bytes_of_base64(r@) == Some(b@),
{
    base64::engine::general_purpose::STANDARD.encode(b)
}

/// Relies on `base64::engine::general_purpose::STANDARD.decode`: `None`
/// stands for its `DecodeError`.
#[verifier::external_body]
pub(crate) fn decode_base64(s: &str) -> (r: Option<Vec<u8>>)
    ensures
        match r {
            Some(v) => bytes_of_base64(s@) == Some(v@),
            None => bytes_of_base64(s@) is None,
        },
{
    base64::engine::general_purpose::STANDARD.decode(s).ok()
}

} // verus!
