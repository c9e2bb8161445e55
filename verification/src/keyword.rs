//! The words that no identifier may be.
use vstd::prelude::*;
use vstd::utf8::{encode_utf8, encode_utf8_decode_utf8};

verus! {

pub const IF: &'static str = "if";

pub const THEN: &'static str = "then";

pub const ELSE: &'static str = "else";

pub const WHEN: &'static str = "when";

pub const AS: &'static str = "as";

pub const IS: &'static str = "is";

pub const EXPECT: &'static str = "expect";

pub const KEYWORDS: [&'static str; 7] = [IF, THEN, ELSE, WHEN, AS, IS, EXPECT];

/// Whether `word` is one of the keywords.
pub open spec fn is_keyword(word: Seq<char>) -> bool {
    exists|i: int| 0 <= i < KEYWORDS@.len() && #[trigger] KEYWORDS@[i]@ == word
}

/// Whether two strings hold the same characters.
fn same_text(a: &str, b: &str) -> (same: bool)
    ensures
        same == (a@ == b@),
{
    let left: &[u8] = a.as_bytes();
    let right: &[u8] = b.as_bytes();
    proof {
        encode_utf8_decode_utf8(a@);
        encode_utf8_decode_utf8(b@);
    }
    if left.len() != right.len() {
        return false;
    }
    let mut i: usize = 0;
    while i < left.len()
        invariant
            i <= left@.len(),
            left@.len() == right@.len(),
            left@.take(i as int) == right@.take(i as int),
            left@ == encode_utf8(a@),
            right@ == encode_utf8(b@),
        decreases left@.len() - i,
    {
        if left[i] != right[i] {
            return false;
        }
        assert(left@.take(i + 1) == left@.take(i as int).push(left@[i as int]));
        assert(right@.take(i + 1) == right@.take(i as int).push(right@[i as int]));
        i = i + 1;
    }
    assert(left@ == left@.take(i as int));
    assert(right@ == right@.take(i as int));
    true
}

/// Looks `word` up among the keywords.
pub fn found_in_keywords(word: &str) -> (found: bool)
    ensures
        found == is_keyword(word@),
{
    let mut i: usize = 0;
    while i < KEYWORDS.len()
        invariant
            i <= KEYWORDS@.len(),
            forall|j: int| 0 <= j < i ==> #[trigger] KEYWORDS@[j]@ != word@,
        decreases KEYWORDS@.len() - i,
    {
        if same_text(KEYWORDS[i], word) {
            assert(KEYWORDS@[i as int]@ == word@);
            return true;
        }
        i = i + 1;
    }
    false
}

} // verus!
