//! Base64 text for bodies that are not text: the standard alphabet, padded
//! with `=`, on one line.

use vstd::prelude::*;

verus! {

/// The character that stands for the six-bit value `v`: `A` to `Z` for 0 to
/// 25, `a` to `z` for 26 to 51, `0` to `9` for 52 to 61, then `+` and `/`.
pub open spec fn symbol(v: int) -> char {
    if v < 26 {
        ((v + 65) as u8) as char
    } else if v < 52 {
        ((v + 71) as u8) as char
    } else if v < 62 {
        ((v - 4) as u8) as char
    } else if v == 62 {
        '+'
    } else {
        '/'
    }
}

/// The base64 text of `bytes`: four characters for each three bytes, the
/// last group filled up with `=` where one or two bytes are left.
pub open spec fn base64_text(bytes: Seq<u8>) -> Seq<char>
    decreases bytes.len(),
{
    if bytes.len() == 0 {
        Seq::empty()
    } else if bytes.len() == 1 {
        let a = bytes[0] as int;
        seq![symbol(a / 4), symbol(a % 4 * 16), '=', '=']
    } else if bytes.len() == 2 {
        let a = bytes[0] as int;
        let b = bytes[1] as int;
        seq![symbol(a / 4), symbol(a % 4 * 16 + b / 16), symbol(b % 16 * 4), '=']
    } else {
        let a = bytes[0] as int;
        let b = bytes[1] as int;
        let c = bytes[2] as int;
        seq![
            symbol(a / 4),
            symbol(a % 4 * 16 + b / 16),
            symbol(b % 16 * 4 + c / 64),
            symbol(c % 64),
        ] + base64_text(bytes.skip(3))
    }
}

/// The number of characters in the base64 text of `n` bytes.
pub open spec fn base64_len(n: nat) -> nat {
    4 * ((n + 2) / 3)
}

/// The base64 text of `n` bytes has `base64_len(n)` characters.
pub proof fn lemma_base64_text_len(bytes: Seq<u8>)
    ensures
        base64_text(bytes).len() == base64_len(bytes.len()),
    decreases bytes.len(),
{
    if bytes.len() > 2 {
        lemma_base64_text_len(bytes.skip(3));
    }
}

/// The six-bit value that `c` stands for, if it is a character of the
/// alphabet. The padding character `=` stands for none.
pub open spec fn symbol_value(c: char) -> Option<int> {
    let n = c as int;
    if 65 <= n <= 90 {
        Some(n - 65)
    } else if 97 <= n <= 122 {
        Some(n - 71)
    } else if 48 <= n <= 57 {
        Some(n + 4)
    } else if c == '+' {
        Some(62)
    } else if c == '/' {
        Some(63)
    } else {
        None
    }
}

/// The bytes that the last group of a base64 text stands for, if it is
/// one: a group of four characters that ends in one or two `=`.
pub open spec fn last_group_bytes(group: Seq<char>) -> Option<Seq<u8>> {
    let a = symbol_value(group[0]);
    let b = symbol_value(group[1]);
    let c = symbol_value(group[2]);
    if a is None || b is None || group[3] != '=' {
        None
    } else if group[2] == '=' {
        if b->0 % 16 == 0 {
            Some(seq![(a->0 * 4 + b->0 / 16) as u8])
        } else {
            None
        }
    } else if c is Some && c->0 % 4 == 0 {
        Some(seq![(a->0 * 4 + b->0 / 16) as u8, (b->0 % 16 * 16 + c->0 / 4) as u8])
    } else {
        None
    }
}

/// The three bytes that a full group of a base64 text stands for, if it is
/// one: four characters of the alphabet.
pub open spec fn full_group_bytes(group: Seq<char>) -> Option<Seq<u8>> {
    let a = symbol_value(group[0]);
    let b = symbol_value(group[1]);
    let c = symbol_value(group[2]);
    let d = symbol_value(group[3]);
    if a is Some && b is Some && c is Some && d is Some {
        Some(
            seq![
                (a->0 * 4 + b->0 / 16) as u8,
                (b->0 % 16 * 16 + c->0 / 4) as u8,
                (c->0 % 4 * 64 + d->0) as u8,
            ],
        )
    } else {
        None
    }
}

/// The bytes that `text` is the base64 text of, if there are any: `text` is
/// read four characters at a time, and only its last group may be padded.
pub open spec fn base64_bytes(text: Seq<char>) -> Option<Seq<u8>>
    decreases text.len(),
{
    if text.len() == 0 {
        Some(Seq::empty())
    } else if text.len() < 4 {
        None
    } else if text.len() == 4 && text[3] == '=' {
        last_group_bytes(text)
    } else {
        match (full_group_bytes(text.take(4)), base64_bytes(text.skip(4))) {
            (Some(first), Some(rest)) => Some(first + rest),
            _ => None,
        }
    }
}

/// Every six-bit value is read back from the character that stands for it.
pub proof fn lemma_symbol_value(v: int)
    requires
        0 <= v < 64,
    ensures
        symbol_value(symbol(v)) == Some(v),
        symbol(v) != '=',
{
}

/// Base64 text loses nothing: read back, it gives exactly the bytes that
/// were encoded.
pub proof fn lemma_base64_round_trip(bytes: Seq<u8>)
    ensures
        base64_bytes(base64_text(bytes)) == Some(bytes),
    decreases bytes.len(),
{
    let text = base64_text(bytes);
    let a = bytes[0] as int;
    let b = bytes[1] as int;
    let c = bytes[2] as int;
    if bytes.len() == 0 {
    } else if bytes.len() == 1 {
        lemma_symbol_value(a / 4);
        lemma_symbol_value(a % 4 * 16);
        assert(base64_bytes(text).unwrap() =~= bytes);
    } else if bytes.len() == 2 {
        lemma_symbol_value(a / 4);
        lemma_symbol_value(a % 4 * 16 + b / 16);
        lemma_symbol_value(b % 16 * 4);
        assert(base64_bytes(text).unwrap() =~= bytes);
    } else {
        lemma_symbol_value(a / 4);
        lemma_symbol_value(a % 4 * 16 + b / 16);
        lemma_symbol_value(b % 16 * 4 + c / 64);
        lemma_symbol_value(c % 64);
        lemma_base64_round_trip(bytes.skip(3));
        assert(text.skip(4) =~= base64_text(bytes.skip(3)));
        assert(base64_bytes(text).unwrap() =~= bytes);
    }
}

/// Calls `base64::encode`, which encodes with the crate's `STANDARD`
/// configuration: the standard alphabet with padding. The contract claims
/// that the string is `base64_text` of the input. The crate panics where the
/// length of the text does not fit in `usize`, which `requires` leaves out.
#[verifier::external_body]
pub(crate) fn encode_standard(bytes: &[u8]) -> (text: String)
    requires
        base64_len(bytes@.len()) <= usize::MAX,
    ensures
        text@ == base64_text(bytes@),
{
    base64::encode(bytes)
}

} // verus!
