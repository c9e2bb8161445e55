//! Reading characters off UTF-8 bytes, and telling their classes apart.
use encode_unicode::CharExt;
use vstd::prelude::*;
use vstd::utf8::{
    codepoint_width_1, decode_first_scalar, decode_utf8, decode_utf8_first_scalar,
    is_leading_byte_width_1, length_of_first_scalar, pop_first_scalar, take_first_scalar,
    valid_first_scalar, valid_utf8,
};

verus! {

/// The character that `bytes` starts with, and how many bytes encode it. There is none where
/// `bytes` is empty or does not start with a well-formed UTF-8 sequence.
#[verifier::opaque]
pub open spec fn first_char(bytes: Seq<u8>) -> Option<(char, int)> {
    if valid_first_scalar(bytes) {
        Some((decode_first_scalar(bytes) as char, length_of_first_scalar(bytes)))
    } else {
        None
    }
}

/// Calls `encode_unicode::CharExt::from_utf8_slice_start` for `char`. It reads one character
/// off the start of the slice and says how many bytes encode it. It fails on a slice that is
/// empty or too short for the sequence it starts with, and on a sequence that is malformed,
/// overlong, a surrogate or past the last code point.
#[verifier::external_body]
pub(crate) fn char_at_start(bytes: &[u8]) -> (found: Option<(char, usize)>)
    ensures
        match found {
            Some((c, width)) => first_char(bytes@) == Some((c, width as int)),
            None => first_char(bytes@) is None,
        },
{
    char::from_utf8_slice_start(bytes).ok()
}

/// Calls `core::str::from_utf8`. It succeeds exactly on UTF-8 bytes, and gives them back as
/// the text they encode.
#[verifier::external_body]
pub(crate) fn str_of_bytes(bytes: &[u8]) -> (text: Option<&str>)
    ensures
        match text {
            Some(s) => valid_utf8(bytes@) && s@ == decode_utf8(bytes@),
            None => !valid_utf8(bytes@),
        },
{
    core::str::from_utf8(bytes).ok()
}

/// `A` to `Z`.
pub open spec fn is_ascii_upper(c: char) -> bool {
    'A' <= c <= 'Z'
}

/// `a` to `z`.
pub open spec fn is_ascii_lower(c: char) -> bool {
    'a' <= c <= 'z'
}

/// Whether a character past U+007F has the Unicode property `Alphabetic`.
pub uninterp spec fn alphabetic_past_ascii(c: char) -> bool;

/// Whether a character past U+007F has the Unicode property `Lowercase`.
pub uninterp spec fn lowercase_past_ascii(c: char) -> bool;

/// Whether a character past U+007F has the Unicode property `Uppercase`.
pub uninterp spec fn uppercase_past_ascii(c: char) -> bool;

/// Whether a character is a letter: whether it has the Unicode property `Alphabetic`. Among the
/// ASCII characters these are `a` to `z` and `A` to `Z`. Past them, the characters of either
/// case are letters, and there are others.
pub open spec fn is_alphabetic(c: char) -> bool {
    if c <= '\u{7f}' {
        is_ascii_lower(c) || is_ascii_upper(c)
    } else {
        lowercase_past_ascii(c) || uppercase_past_ascii(c) || alphabetic_past_ascii(c)
    }
}

/// Whether a character has the Unicode property `Lowercase`. Among the ASCII characters these
/// are `a` to `z`.
pub open spec fn is_lowercase(c: char) -> bool {
    if c <= '\u{7f}' {
        is_ascii_lower(c)
    } else {
        lowercase_past_ascii(c)
    }
}

/// Whether a character has the Unicode property `Uppercase`. Among the ASCII characters these
/// are `A` to `Z`. No lowercase character is one.
pub open spec fn is_uppercase(c: char) -> bool {
    if c <= '\u{7f}' {
        is_ascii_upper(c)
    } else {
        uppercase_past_ascii(c) && !lowercase_past_ascii(c)
    }
}

/// Calls `char::is_alphabetic`, which tests the Unicode property `Alphabetic`. The contract
/// spells the property out for ASCII and names it past that. It adds one fact: a lowercase or
/// uppercase character is alphabetic. The Unicode data by which the standard library defines the
/// three properties, `DerivedCoreProperties.txt`, makes `Alphabetic` out of `Lowercase`,
/// `Uppercase` and some more.
#[verifier::external_body]
pub(crate) fn char_is_alphabetic(c: char) -> (yes: bool)
    ensures
        c <= '\u{7f}' ==> yes == (is_ascii_lower(c) || is_ascii_upper(c)),
        c > '\u{7f}' ==> yes == alphabetic_past_ascii(c),
        c > '\u{7f}' && (lowercase_past_ascii(c) || uppercase_past_ascii(c)) ==> yes,
{
    c.is_alphabetic()
}

/// Calls `char::is_lowercase`, which tests the Unicode property `Lowercase`. The contract
/// spells the property out for ASCII and names it past that.
#[verifier::external_body]
pub(crate) fn char_is_lowercase(c: char) -> (yes: bool)
    ensures
        c <= '\u{7f}' ==> yes == is_ascii_lower(c),
        c > '\u{7f}' ==> yes == lowercase_past_ascii(c),
{
    c.is_lowercase()
}

/// Calls `char::is_uppercase`, which tests the Unicode property `Uppercase`. The contract
/// spells the property out for ASCII and names it past that. It adds one fact: a lowercase
/// character is not uppercase. The Unicode data by which the standard library defines the two
/// properties, `DerivedCoreProperties.txt`, lists no character under both.
#[verifier::external_body]
pub(crate) fn char_is_uppercase(c: char) -> (yes: bool)
    ensures
        c <= '\u{7f}' ==> yes == is_ascii_upper(c),
        c > '\u{7f}' ==> yes == uppercase_past_ascii(c),
        c > '\u{7f}' && lowercase_past_ascii(c) ==> !yes,
{
    c.is_uppercase()
}

/// The first character takes one to four bytes, all of them there.
pub proof fn lemma_first_char_width(bytes: Seq<u8>)
    ensures
        first_char(bytes) matches Some((_, width)) ==> 1 <= width <= 4 && width <= bytes.len(),
{
    reveal(first_char);
}

/// An ASCII byte is a character by itself, and an ASCII character is encoded by one byte.
pub proof fn lemma_first_char_ascii(bytes: Seq<u8>)
    ensures
        bytes.len() > 0 && bytes[0] <= 0x7f ==> first_char(bytes) == Some((bytes[0] as char, 1int)),
        first_char(bytes) matches Some((c, width)) ==> (c <= '\u{7f}' <==> bytes[0] <= 0x7f),
{
    reveal(first_char);
    if bytes.len() > 0 {
        let b = bytes[0];
        assert(is_leading_byte_width_1(b) ==> codepoint_width_1(b) == b) by (bit_vector);
    }
    if valid_first_scalar(bytes) {
        let one = take_first_scalar(bytes);
        assert(pop_first_scalar(one) == Seq::<u8>::empty());
        assert(valid_utf8(one)) by {
            reveal_with_fuel(valid_utf8, 2);
        }
        decode_utf8_first_scalar(one);
        assert(take_first_scalar(one) == one);
    }
}

} // verus!
