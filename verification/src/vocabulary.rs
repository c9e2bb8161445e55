//! What the words that the contracts are written in mean, spelled out.
use vstd::prelude::*;
use vstd::utf8::{encode_utf8, valid_first_scalar};
use crate::arena::texts;
use crate::chars::{
    alphabetic_past_ascii, first_char, is_alphabetic, is_lowercase, is_uppercase,
    lowercase_past_ascii, uppercase_past_ascii,
};
use crate::grammar::{
    alphabetic, is_malformed_char, is_name_char, lowercase, malformed_chars, name_chars, uppercase,
    AT, DOT, UNDERSCORE,
};
use crate::ident::{chain_result, BadIdent, Ident, IdentView};
use crate::keyword::{is_keyword, KEYWORDS};
use crate::laws::{law_len_counts_text, moved_by};
use crate::parser::{outcome, EExpr, Progress};
use crate::state::{advanced, State, StateView};
use crate::text::{dots, joined, lemma_first_char_of_text};

verus! {

/// The classes of characters: `a` to `z` are lowercase, `A` to `Z` are uppercase, and these are
/// the ASCII letters. Past ASCII the Unicode properties decide. A name holds letters and the
/// digits `0` to `9`; a malformed identifier holds dots and underscores too.
pub proof fn law_classes_of_characters(c: char)
    ensures
        c <= '\u{7f}' ==> {
            &&& is_lowercase(c) <==> 'a' <= c <= 'z'
            &&& is_uppercase(c) <==> 'A' <= c <= 'Z'
            &&& is_alphabetic(c) <==> 'a' <= c <= 'z' || 'A' <= c <= 'Z'
        },
        c > '\u{7f}' ==> {
            &&& is_lowercase(c) <==> lowercase_past_ascii(c)
            &&& is_uppercase(c) <==> uppercase_past_ascii(c) && !lowercase_past_ascii(c)
            &&& is_alphabetic(c) <==> alphabetic_past_ascii(c) || lowercase_past_ascii(c)
                || uppercase_past_ascii(c)
        },
        is_lowercase(c) ==> is_alphabetic(c) && !is_uppercase(c),
        is_uppercase(c) ==> is_alphabetic(c),
        is_name_char(c) <==> is_alphabetic(c) || '0' <= c <= '9',
        is_malformed_char(c) <==> is_alphabetic(c) || '0' <= c <= '9' || c == '.' || c == '_',
        lowercase()(c) == is_lowercase(c),
        uppercase()(c) == is_uppercase(c),
        alphabetic()(c) == is_alphabetic(c),
        name_chars()(c) == is_name_char(c),
        malformed_chars()(c) == is_malformed_char(c),
        DOT as char == '.',
        AT as char == '@',
        UNDERSCORE as char == '_',
{
}

/// Whether `word` is one of seven words.
pub open spec fn is_reserved(word: Seq<char>) -> bool {
    ||| word == seq!['i', 'f']
    ||| word == seq!['t', 'h', 'e', 'n']
    ||| word == seq!['e', 'l', 's', 'e']
    ||| word == seq!['w', 'h', 'e', 'n']
    ||| word == seq!['a', 's']
    ||| word == seq!['i', 's']
    ||| word == seq!['e', 'x', 'p', 'e', 'c', 't']
}

/// A word is a keyword if and only if it is `if`, `then`, `else`, `when`, `as`, `is` or `expect`.
pub proof fn law_keywords_are_seven_words(word: Seq<char>)
    ensures
        is_keyword(word) <==> is_reserved(word),
        is_keyword(word) <==> word == "if"@ || word == "then"@ || word == "else"@ || word == "when"@
            || word == "as"@ || word == "is"@ || word == "expect"@,
{
    reveal_strlit("if");
    reveal_strlit("then");
    reveal_strlit("else");
    reveal_strlit("when");
    reveal_strlit("as");
    reveal_strlit("is");
    reveal_strlit("expect");
    assert("if"@ == seq!['i', 'f']);
    assert("then"@ == seq!['t', 'h', 'e', 'n']);
    assert("else"@ == seq!['e', 'l', 's', 'e']);
    assert("when"@ == seq!['w', 'h', 'e', 'n']);
    assert("as"@ == seq!['a', 's']);
    assert("is"@ == seq!['i', 's']);
    assert("expect"@ == seq!['e', 'x', 'p', 'e', 'c', 't']);
    assert(KEYWORDS@[0]@ == "if"@);
    assert(KEYWORDS@[1]@ == "then"@);
    assert(KEYWORDS@[2]@ == "else"@);
    assert(KEYWORDS@[3]@ == "when"@);
    assert(KEYWORDS@[4]@ == "as"@);
    assert(KEYWORDS@[5]@ == "is"@);
    assert(KEYWORDS@[6]@ == "expect"@);
}

/// Bytes that encode a text start with its first character, and its encoding is as wide as the
/// text is longer than without it. Bytes start with a character where they start with a
/// well-formed sequence, and else with none.
pub proof fn law_texts_start_with_their_first_character(
    text: Seq<char>,
    rest: Seq<u8>,
    bytes: Seq<u8>,
)
    requires
        text.len() > 0,
    ensures
        first_char(encode_utf8(text) + rest) == Some(
            (text[0], encode_utf8(text).len() - encode_utf8(text.drop_first()).len()),
        ),
        first_char(bytes) is Some <==> valid_first_scalar(bytes),
{
    lemma_first_char_of_text(text, rest);
    reveal(first_char);
}

/// Moving forward keeps the line and takes one column for each byte. It is refused where the
/// column would not fit 16 bits.
pub proof fn law_moving_forward(state: StateView, quantity: int)
    ensures
        advanced(state, quantity) == if state.column + quantity <= u16::MAX {
            Some(moved_by(state, quantity))
        } else {
            None
        },
{
}

/// The length of an identifier is the number of bytes that encode what it holds: its text, or
/// its names with one dot between each two, the module's first. Only an access that holds nothing
/// has no length.
pub proof fn law_length_of_an_identifier(ident: IdentView)
    ensures
        match ident {
            IdentView::GlobalTag(text) => ident.len() == encode_utf8(text).len(),
            IdentView::PrivateTag(text) => ident.len() == encode_utf8(text).len(),
            IdentView::AccessorFunction(text) => ident.len() == encode_utf8(text).len(),
            IdentView::Malformed(text, _) => ident.len() == encode_utf8(text).len(),
            IdentView::Access { module_name, parts } => if module_name.len() > 0 {
                ident.len() == encode_utf8(module_name + dots(parts)).len()
            } else if parts.len() > 0 {
                ident.len() == encode_utf8(joined(parts)).len()
            } else {
                ident.len() == -1
            },
        },
{
    if let IdentView::Access { module_name, parts } = ident {
        if module_name.len() > 0 || parts.len() > 0 {
            law_len_counts_text(ident);
        }
    }
}

/// The result of a parser, an identifier and a state stand in contracts for what they hold.
pub proof fn law_results_stand_for_what_they_hold(
    progress: Progress,
    ident: Ident,
    state: State,
    error: EExpr,
    width: u16,
    problem: BadIdent,
)
    ensures
        outcome(Ok::<_, (Progress, EExpr, State)>((progress, ident, state))) == Ok::<
            _,
            (Progress, EExpr, StateView),
        >((progress, ident@, state@)),
        outcome(Err::<(Progress, Ident, State), _>((progress, error, state))) == Err::<
            (Progress, IdentView, StateView),
            _,
        >((progress, error, state@)),
        chain_result(Ok((width, ident))) == Ok::<_, (u16, BadIdent)>((width, ident@)),
        chain_result(Err((width, problem))) == Err::<(u16, IdentView), _>((width, problem)),
        state@.bytes == state.bytes@ && state@.line == state.line && state@.column == state.column,
        match ident {
            Ident::GlobalTag(name) => ident@ == IdentView::GlobalTag(name@),
            Ident::PrivateTag(name) => ident@ == IdentView::PrivateTag(name@),
            Ident::Access { module_name, parts } => {
                &&& ident@ matches IdentView::Access { module_name: module, parts: names }
                &&& module == module_name@
                &&& names == texts(parts@)
                &&& texts(parts@).len() == parts@.len()
                &&& forall|i: int| 0 <= i < parts@.len() ==> #[trigger] texts(parts@)[i]
                    == parts@[i]@
            },
            Ident::AccessorFunction(name) => ident@ == IdentView::AccessorFunction(name@),
            Ident::Malformed(text, why) => ident@ == IdentView::Malformed(text@, why),
        },
{
}

} // verus!
