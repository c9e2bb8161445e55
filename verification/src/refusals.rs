//! What the parsers of names refuse, and whether that is progress.
use vstd::prelude::*;
use vstd::utf8::{decode_utf8, decode_utf8_encode_utf8, encode_utf8, encode_utf8_decode_utf8};
use crate::chars::lemma_first_char_ascii;
use crate::forms::{extent, lemma_extent_over_part, lemma_module_chain_text, lemma_run_over_modules};
use crate::grammar::{
    alphabetic, alphabetic_part, byte_len, concrete_name, has_at, lemma_low16_small,
    lemma_module_chain, lemma_part, lemma_run, lowercase, malformed_chars, module_chain, uppercase,
    uppercase_part, DOT, UNDERSCORE,
};
use crate::ident::IdentView;
use crate::laws::{
    is_given_back, is_read_as, law_keywords_are_refused, law_reads_back_access,
    law_reads_back_lowercase_ident, law_reads_back_unqualified_ident, lemma_last_name_off,
    lemma_module_off_names, lemma_modules_front,
};
use crate::outcomes::{
    concrete_type_outcome, lowercase_ident_outcome, parse_ident_outcome, tag_name_outcome,
    unqualified_ident_outcome, uppercase_ident_outcome,
};
use crate::parser::{EExpr, Progress};
use crate::state::StateView;
use crate::text::{
    are_names, dots, ends_here, goes_on, is_name, joined, lemma_first_char_of_text,
    lemma_part_of_name, starts_with,
};
use crate::vocabulary::{is_reserved, law_keywords_are_seven_words};

verus! {

/// A lowercase name other than the seven reserved words is read back by every parser that takes
/// lowercase names, whatever follows it that is no letter or digit; as an identifier, whatever
/// follows it that is no dot or underscore either.
pub proof fn law_names_that_are_not_reserved_are_read_back(
    name: Seq<char>,
    rest: Seq<u8>,
    state: StateView,
)
    requires
        is_name(name, lowercase()),
        name != "if"@,
        name != "then"@,
        name != "else"@,
        name != "when"@,
        name != "as"@,
        name != "is"@,
        name != "expect"@,
        !goes_on(rest),
        state.bytes == encode_utf8(name) + rest,
    ensures
        is_given_back(lowercase_ident_outcome(state), state, name),
        is_given_back(unqualified_ident_outcome(state), state, name),
        ends_here(rest) && !has_at(rest, 0, UNDERSCORE) ==> is_read_as(
            state,
            name,
            IdentView::Access { module_name: seq![], parts: seq![name] },
        ),
{
    law_keywords_are_seven_words(name);
    assert(is_name(name, alphabetic()));
    law_reads_back_lowercase_ident(name, rest, state);
    law_reads_back_unqualified_ident(name, rest, state);
    if ends_here(rest) && !has_at(rest, 0, UNDERSCORE) {
        let parts = seq![name];
        assert(parts.drop_first() == Seq::<Seq<char>>::empty());
        assert(joined(parts) == name);
        law_reads_back_access(parts, rest, state);
    }
}

/// One of the seven reserved words is refused by every parser that takes lowercase names, where
/// no letter or digit follows. It is progress for an unqualified name alone.
pub proof fn law_reserved_words_are_refused(word: Seq<char>, rest: Seq<u8>, state: StateView)
    requires
        word == "if"@ || word == "then"@ || word == "else"@ || word == "when"@ || word == "as"@
            || word == "is"@ || word == "expect"@,
        !goes_on(rest),
        state.bytes == encode_utf8(word) + rest,
    ensures
        lowercase_ident_outcome(state) == Err::<(Progress, Seq<char>, StateView), _>(
            (Progress::NoProgress, (), state),
        ),
        unqualified_ident_outcome(state) == Err::<(Progress, Seq<char>, StateView), _>(
            (Progress::MadeProgress, (), state),
        ),
        ends_here(rest) && !has_at(rest, 0, UNDERSCORE) ==> {
            parse_ident_outcome(state) == Err::<(Progress, IdentView, StateView), _>(
                (Progress::NoProgress, EExpr::Start(state.line, state.column), state),
            )
        },
{
    law_keywords_are_seven_words(word);
    law_keywords_are_refused(word, rest, state);
}

/// A parser of names refuses, without progress, what does not start with a character of its
/// class.
pub proof fn law_names_start_with_a_character_of_their_class(state: StateView)
    ensures
        !starts_with(state.bytes, lowercase()) ==> lowercase_ident_outcome(state) == Err::<
            (Progress, Seq<char>, StateView),
            _,
        >((Progress::NoProgress, (), state)),
        !starts_with(state.bytes, uppercase()) ==> uppercase_ident_outcome(state) == Err::<
            (Progress, Seq<char>, StateView),
            _,
        >((Progress::NoProgress, (), state)),
        !starts_with(state.bytes, alphabetic()) ==> unqualified_ident_outcome(state) == Err::<
            (Progress, Seq<char>, StateView),
            _,
        >((Progress::NoProgress, (), state)),
        !starts_with(state.bytes, uppercase()) ==> concrete_type_outcome(state) == Err::<
            (Progress, (Seq<char>, Seq<char>), StateView),
            _,
        >((Progress::NoProgress, (), state)),
        !starts_with(state.bytes, uppercase()) && !(state.bytes.len() > 0 && state.bytes[0]
            == '@' as u8) ==> tag_name_outcome(state) == Err::<(Progress, Seq<char>, StateView), _>(
            (Progress::NoProgress, (), state),
        ),
{
}

/// A lowercase or an uppercase name is never refused with progress, and the state stays.
pub proof fn law_names_of_one_case_fail_without_progress(state: StateView)
    ensures
        lowercase_ident_outcome(state) matches Err((progress, _, stopped)) ==> progress
            == Progress::NoProgress && stopped == state,
        uppercase_ident_outcome(state) matches Err((progress, _, stopped)) ==> progress
            == Progress::NoProgress && stopped == state,
{
}

/// An unqualified name is refused with progress only where it is one of the seven reserved
/// words, and the state stays.
pub proof fn law_unqualified_ident_fails_with_progress_on_reserved_words(state: StateView)
    ensures
        unqualified_ident_outcome(state) matches Err((progress, _, stopped)) ==> {
            &&& stopped == state
            &&& progress == Progress::MadeProgress ==> exists|word: Seq<char>, rest: Seq<u8>|
                #![trigger encode_utf8(word) + rest]
                is_reserved(word) && !goes_on(rest) && state.bytes == encode_utf8(word) + rest
        },
{
    let bytes = state.bytes;
    lemma_part(bytes, alphabetic());
    if let Some(n) = alphabetic_part(bytes) {
        let word = decode_utf8(bytes.take(n));
        law_keywords_are_seven_words(word);
        decode_utf8_encode_utf8(bytes.take(n));
        assert(bytes == encode_utf8(word) + bytes.skip(n));
    }
}

/// A tag is refused with progress only where the input starts with an `@`, and the state stays.
pub proof fn law_tag_name_fails_with_progress_behind_an_at(state: StateView)
    ensures
        tag_name_outcome(state) matches Err((progress, _, stopped)) ==> {
            &&& stopped == state
            &&& progress == Progress::MadeProgress ==> state.bytes.len() > 0 && state.bytes[0]
                == '@' as u8
        },
{
}

/// An `@` with no uppercase name behind it is refused as a tag, with progress.
pub proof fn law_tag_name_refuses_an_at_alone(state: StateView)
    requires
        state.bytes.len() > 0,
        state.bytes[0] == '@' as u8,
        !starts_with(state.bytes.skip(1), uppercase()),
    ensures
        tag_name_outcome(state) == Err::<(Progress, Seq<char>, StateView), _>(
            (Progress::MadeProgress, (), state),
        ),
{
}

/// An `@` and an uppercase name are read back as a tag, whatever follows them that is no letter,
/// digit or dot. With a dot behind them they are refused, with progress.
pub proof fn law_reads_back_tag_name(name: Seq<char>, rest: Seq<u8>, state: StateView)
    requires
        is_name(name, uppercase()),
        !goes_on(rest),
        state.bytes == encode_utf8(seq!['@'] + name) + rest,
    ensures
        ends_here(rest) ==> is_given_back(tag_name_outcome(state), state, seq!['@'] + name),
        !ends_here(rest) ==> tag_name_outcome(state) == Err::<(Progress, Seq<char>, StateView), _>(
            (Progress::MadeProgress, (), state),
        ),
{
    let tag = seq!['@'] + name;
    let bytes = state.bytes;
    lemma_first_char_of_text(tag, rest);
    lemma_first_char_ascii(bytes);
    assert(tag.drop_first() == name);
    lemma_part_of_name(name, rest, uppercase());
    encode_utf8_decode_utf8(tag);
    assert(bytes.take(byte_len(tag)) == encode_utf8(tag));
    assert(has_at(bytes, byte_len(tag), DOT) == has_at(rest, 0, DOT));
}

/// Uppercase names with dots between them, and one more dot with no uppercase name behind it, are
/// refused as a type, with progress. Behind the first name they are no more than 16 bits of
/// bytes.
pub proof fn law_concrete_type_refuses_a_trailing_dot(
    names: Seq<Seq<char>>,
    rest: Seq<u8>,
    state: StateView,
)
    requires
        names.len() > 0,
        are_names(names, uppercase()),
        byte_len(dots(names.drop_first())) <= u16::MAX,
        rest.len() > 0,
        rest[0] == '.' as u8,
        !starts_with(rest.skip(1), uppercase()),
        state.bytes == encode_utf8(joined(names)) + rest,
    ensures
        concrete_name(state.bytes) == Err::<(Seq<char>, Seq<char>, int), _>(Progress::MadeProgress),
        concrete_type_outcome(state) == Err::<(Progress, (Seq<char>, Seq<char>), StateView), _>(
            (Progress::MadeProgress, (), state),
        ),
{
    lemma_first_char_ascii(rest);
    lemma_modules_front(names, rest);
    lemma_low16_small(byte_len(dots(names.drop_first())));
    assert(has_at(state.bytes, byte_len(joined(names)), DOT));
}

/// A type is refused without progress exactly where the input does not start with an uppercase
/// letter or the line is too long for the type. Where 16 bits can count the names behind the
/// first, it is refused with progress exactly where a dot with no uppercase name behind it
/// follows uppercase names with dots between them. The state stays.
pub proof fn law_concrete_type_fails_with_progress_at_a_trailing_dot(state: StateView)
    ensures
        concrete_type_outcome(state) matches Err((progress, _, stopped)) ==> {
            &&& stopped == state
            &&& progress == Progress::NoProgress ==> !starts_with(state.bytes, uppercase())
                || state.column + extent(state.bytes) > u16::MAX
            &&& progress == Progress::MadeProgress ==> starts_with(state.bytes, uppercase())
            &&& progress == Progress::MadeProgress && module_chain(
                state.bytes.skip(uppercase_part(state.bytes)->0),
            ) <= u16::MAX ==> exists|names: Seq<Seq<char>>, rest: Seq<u8>|
                #![trigger encode_utf8(joined(names)) + rest]
                {
                    &&& names.len() > 0
                    &&& are_names(names, uppercase())
                    &&& rest.len() > 0 && rest[0] == '.' as u8
                    &&& !starts_with(rest.skip(1), uppercase())
                    &&& state.bytes == encode_utf8(joined(names)) + rest
                }
        },
{
    let bytes = state.bytes;
    lemma_part(bytes, uppercase());
    if let Some(first) = uppercase_part(bytes) {
        let chain = module_chain(bytes.skip(first));
        let width = first + chain;
        lemma_module_chain(bytes.skip(first));
        lemma_low16_small(chain);
        lemma_extent_over_part(bytes, uppercase());
        lemma_run_over_modules(bytes.skip(first));
        lemma_run(bytes.skip(first).skip(chain), malformed_chars());
        assert(bytes.skip(first).skip(chain) == bytes.skip(width));
        if has_at(bytes, width, DOT) {
            let rest = bytes.skip(width);
            lemma_module_chain_text(bytes.skip(first), chain);
            let tail_bytes = bytes.skip(first).take(chain);
            let tail = choose|tail: Seq<Seq<char>>|
                are_names(tail, uppercase()) && decode_utf8(tail_bytes) == #[trigger] dots(tail);
            lemma_module_off_names(bytes, first, width, tail);
            let names = seq![decode_utf8(bytes.take(first))] + tail;
            assert(bytes == encode_utf8(joined(names)) + rest);
            lemma_module_chain_ends(bytes.skip(first));
            assert(bytes.skip(first).skip(chain + 1) == rest.skip(1));
        } else if has_at(bytes, first, DOT) && 0 < chain <= u16::MAX {
            lemma_last_name_off(bytes, first);
        }
    }
}

/// No uppercase name follows a module chain behind a dot.
proof fn lemma_module_chain_ends(bytes: Seq<u8>)
    ensures
        has_at(bytes, module_chain(bytes), DOT) ==> !starts_with(
            bytes.skip(module_chain(bytes) + 1),
            uppercase(),
        ),
    decreases bytes.len(),
{
    if has_at(bytes, 0, DOT) {
        if let Some(n) = uppercase_part(bytes.skip(1)) {
            let rest = bytes.skip(1 + n);
            lemma_part(bytes.skip(1), uppercase());
            lemma_module_chain(rest);
            lemma_module_chain_ends(rest);
            assert(has_at(rest, module_chain(rest), DOT) == has_at(
                bytes,
                module_chain(bytes),
                DOT,
            ));
            if has_at(rest, module_chain(rest), DOT) {
                assert(rest.skip(module_chain(rest) + 1) == bytes.skip(module_chain(bytes) + 1));
            }
        }
    }
}

} // verus!
