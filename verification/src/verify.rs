//! Deciding whether a response body is the expected one.
//!
//! Every body has exactly one comparable form, a string: the text itself
//! where the bytes are valid UTF-8, and their base64 text where they are not.

use crate::encoding::{
    base64_bytes, base64_len, base64_text, encode_standard, lemma_base64_round_trip,
    lemma_base64_text_len,
};
use vstd::prelude::*;
use vstd::utf8::*;

verus! {

/// The comparable form of a body.
pub open spec fn comparable_text(bytes: Seq<u8>) -> Seq<char> {
    if valid_utf8(bytes) {
        decode_utf8(bytes)
    } else {
        base64_text(bytes)
    }
}

/// What verification says of a body: nothing where no body is expected,
/// else whether the comparable form is the expected text.
pub open spec fn verdict(bytes: Seq<u8>, expected: Option<Seq<char>>) -> Option<bool> {
    match expected {
        None => None,
        Some(text) => Some(comparable_text(bytes) == text),
    }
}

/// Whether the comparable form of a body fits in a `String`: text always
/// does, base64 text only while its length fits in `usize`.
pub open spec fn has_comparable_form(bytes: Seq<u8>) -> bool {
    valid_utf8(bytes) || base64_len(bytes.len()) <= usize::MAX
}

/// Calls `std::str::from_utf8`. The contract claims that the call succeeds
/// exactly on valid UTF-8, and that the string slice then holds the same
/// bytes as the input.
#[verifier::external_body]
fn text_of(bytes: &[u8]) -> (text: Option<&str>)
    ensures
        text is Some <==> valid_utf8(bytes@),
        text matches Some(s) ==> encode_utf8(s@) == bytes@,
{
    match std::str::from_utf8(bytes) {
        Ok(s) => Some(s),
        Err(_) => None,
    }
}

/// A text has at most as many characters as its UTF-8 encoding has bytes.
proof fn lemma_encoding_is_no_shorter(text: Seq<char>)
    ensures
        text.len() <= encode_utf8(text).len(),
    decreases text.len(),
{
    if text.len() > 0 {
        lemma_encoding_is_no_shorter(text.drop_first());
    }
}

/// Whether the base64 text of `n` bytes fits in a `String`.
fn base64_fits(n: usize) -> (fits: bool)
    ensures
        fits == (base64_len(n as nat) <= usize::MAX),
{
    let groups: usize = if n % 3 == 0 {
        n / 3
    } else {
        n / 3 + 1
    };
    groups <= usize::MAX / 4
}

/// The comparable form of a response body, for display or comparison.
///
/// `None` is returned only for a body that is not text and whose base64 text
/// would be longer than any string.
pub fn comparable_form(response: &[u8]) -> (form: Option<String>)
    ensures
        form is Some <==> has_comparable_form(response@),
        form matches Some(s) ==> s@ == comparable_text(response@),
{
    match text_of(response) {
        Some(s) => {
            proof {
                encode_utf8_decode_utf8(s@);
            }
            Some(s.to_owned())
        },
        None => {
            if base64_fits(response.len()) {
                Some(encode_standard(response))
            } else {
                None
            }
        },
    }
}

/// Compares a response body with the expected text, if one is expected.
///
/// A body without a comparable form is longer than any expected text and so
/// matches none.
pub fn verify(response: &[u8], expected: &Option<String>) -> (result: Option<bool>)
    ensures
        result == verdict(response@, expected.deep_view()),
{
    match expected {
        None => None,
        Some(text) => match comparable_form(response) {
            Some(form) => Some(form == *text),
            None => {
                // The expected text is stored in at most `usize::MAX` bytes and
                // has no more characters than bytes; the base64 text has more.
                let stored: usize = text.as_str().as_bytes().len();
                proof {
                    lemma_base64_text_len(response@);
                    lemma_encoding_is_no_shorter(text@);
                    assert(text@.len() <= stored);
                }
                Some(false)
            },
        },
    }
}

/// A body that is valid UTF-8 is compared as exactly the text it encodes:
/// the comparable form of the encoding of `text` is `text`.
pub proof fn lemma_text_is_compared_as_text(text: Seq<char>)
    ensures
        comparable_text(encode_utf8(text)) == text,
        forall|expected: Seq<char>|
            verdict(encode_utf8(text), Some(expected)) == Some(text == expected),
{
    encode_utf8_valid_utf8(text);
    encode_utf8_decode_utf8(text);
}

/// A body that is not valid UTF-8 is compared as base64 text that decodes
/// back to exactly the bytes of the body.
pub proof fn lemma_fallback_round_trip(bytes: Seq<u8>)
    requires
        !valid_utf8(bytes),
    ensures
        base64_bytes(comparable_text(bytes)) == Some(bytes),
{
    lemma_base64_round_trip(bytes);
}

} // verus!
