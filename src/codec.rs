//! Decoding of the store's base64 values and of UTF-8 text.
use vstd::prelude::*;
use vstd::utf8::{decode_utf8, valid_utf8};

verus! {

/// The bytes that a text in standard, padded base64 encodes, or `None` when
/// the text is not such an encoding.
pub uninterp spec fn base64_decoded(s: Seq<char>) -> Option<Seq<u8>>;

#[verifier::external_type_specification]
#[verifier::external_body]
pub struct ExDecodeError(base64::DecodeError);

/// Relies on `base64::decode` (standard alphabet, padding required): the
/// bytes that `s` encodes, or an error when `s` is not valid base64; the
/// outcome depends on `s` alone. It cannot panic: its only check of its own,
/// that the byte length plus seven fits in `usize`, holds for every string.
#[verifier::external_body]
pub(crate) fn decode_base64(s: &str) -> (r: Result<Vec<u8>, base64::DecodeError>)
    ensures
        match r {
            Ok(b) => base64_decoded(s@) == Some(b@),
            Err(_) => base64_decoded(s@) is None,
        },
{
    base64::decode(s)
}

/// Relies on `String::from_utf8`: it succeeds exactly on valid UTF-8, and the
/// string then holds the characters that the bytes encode.
#[verifier::external_body]
pub(crate) fn utf8_to_string(b: Vec<u8>) -> (r: Option<String>)
    ensures
        match r {
            Some(s) => valid_utf8(b@) && s@ == decode_utf8(b@),
            None => !valid_utf8(b@),
        },
{
    String::from_utf8(b).ok()
}

/// The text that a base64 value encodes, when it encodes valid UTF-8.
pub open spec fn decoded_text(value: Seq<char>) -> Option<Seq<char>> {
    match base64_decoded(value) {
        Some(b) => if valid_utf8(b) {
            Some(decode_utf8(b))
        } else {
            None
        },
        None => None,
    }
}

/// Decodes a base64 value to text; `None` when it is not base64 or not UTF-8.
pub fn decode_text(value: &str) -> (r: Option<String>)
    ensures
        r matches Some(t) ==> decoded_text(value@) == Some(t@),
        r is None ==> decoded_text(value@) is None,
{
    match decode_base64(value) {
        Ok(b) => utf8_to_string(b),
        Err(_) => None,
    }
}

} // verus!
