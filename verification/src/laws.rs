//! What holds of the parsers as a whole.
use vstd::prelude::*;
use vstd::utf8::{
    decode_utf8, decode_utf8_encode_utf8, encode_utf8, encode_utf8_decode_utf8,
    encode_utf8_valid_utf8, valid_utf8, valid_utf8_concat,
};
use crate::chars::{
    first_char, is_lowercase, is_uppercase, lemma_first_char_ascii, lemma_first_char_width,
};
use crate::forms::{
    extent, is_module_name, is_well_formed, lemma_chain_text, lemma_chain_within,
    lemma_malformed_text, lemma_module_chain_text, lemma_tail_within, starts_like_identifier,
};
use crate::grammar::{
    access_chain, alphabetic, alphabetic_part, byte_len, concrete_name, has_at, identifier_chain,
    is_malformed_char, last_dot, lemma_access_chain, lemma_ascii_then_text, lemma_chain_width,
    lemma_low16_small, lemma_low16_sum, lemma_module_chain, lemma_module_name, lemma_part,
    lemma_run, low16, lowercase, malformed_chars, module_chain, part, private_tag, run, uppercase,
    uppercase_part, AT, DOT, UNDERSCORE,
};
use crate::ident::{BadIdent, IdentView};
use crate::keyword::{is_keyword, KEYWORDS};
use crate::outcomes::{
    concrete_type_outcome, is_keyword_access, lowercase_ident_outcome, name_at, parse_ident_outcome,
    tag_name_outcome, unqualified_ident_outcome, uppercase_ident_outcome,
};
use crate::parser::{BadInputError, Col, EExpr, Outcome, Progress, Row};
use crate::state::{advanced, StateView};
use crate::text::{
    are_names, concrete_text, dots, ends_here, goes_on, is_name, joined, lemma_access_chain_of_text,
    lemma_dots_front, lemma_dots_len, lemma_dots_stop, lemma_encode_concat, lemma_encode_dot,
    lemma_first_char_of_text, lemma_joined_push, lemma_last_dot, lemma_last_name,
    lemma_module_chain_of_text, lemma_module_chain_stops, lemma_modules_of_text, lemma_no_dot_bytes,
    lemma_part_of_name, lemma_starts_alphabetic, starts_with,
};

verus! {

/// The state `width` bytes further on the same line.
pub open spec fn moved_by(state: StateView, width: int) -> StateView {
    StateView {
        bytes: state.bytes.skip(width),
        line: state.line,
        column: (state.column + width) as u16,
    }
}

/// The state behind `text`, which the bytes of `state` start with.
pub open spec fn behind(state: StateView, text: Seq<char>) -> StateView {
    moved_by(state, byte_len(text))
}

/// Whether `text`, which the bytes of `state` start with, is read as `ident`. The state moves by
/// the width of the text, which keeps 16 bits. Where that makes the line too long, no expression
/// starts.
pub open spec fn is_read_as(state: StateView, text: Seq<char>, ident: IdentView) -> bool {
    let width = byte_len(text) % 0x1_0000;
    &&& identifier_chain(state.bytes, state.line, state.column) == Ok::<_, (u16, BadIdent)>(
        (width as u16, ident),
    )
    &&& parse_ident_outcome(state) == if state.column + width <= u16::MAX {
        Ok::<_, (Progress, EExpr, StateView)>(
            (Progress::MadeProgress, ident, moved_by(state, width)),
        )
    } else {
        Err((Progress::NoProgress, EExpr::Start(state.line, state.column), state))
    }
}

/// Whether `name`, which the bytes of `state` start with, is what a parser of names made of them.
/// Where it makes the line too long, nothing was parsed.
pub open spec fn is_given_back(
    result: Outcome<Seq<char>, ()>,
    state: StateView,
    name: Seq<char>,
) -> bool {
    result == if state.column + byte_len(name) <= u16::MAX {
        Ok::<_, (Progress, (), StateView)>((Progress::MadeProgress, name, behind(state, name)))
    } else {
        Err((Progress::NoProgress, (), state))
    }
}

/// Where an identifier fits the line and is no keyword, it is what is parsed.
proof fn lemma_parse_ident_ok(state: StateView, width: u16, ident: IdentView)
    requires
        identifier_chain(state.bytes, state.line, state.column) == Ok::<_, (u16, BadIdent)>(
            (width, ident),
        ),
        state.column + width <= u16::MAX,
        !is_keyword_access(ident),
    ensures
        advanced(state, width as int) is Some,
        parse_ident_outcome(state) == Ok::<_, (Progress, EExpr, StateView)>(
            (Progress::MadeProgress, ident, advanced(state, width as int)->0),
        ),
{
}

/// An identifier that is no keyword is what is parsed, but for a line that gets too long.
proof fn lemma_read_as(state: StateView, text: Seq<char>, ident: IdentView)
    requires
        identifier_chain(state.bytes, state.line, state.column) == Ok::<_, (u16, BadIdent)>(
            (low16(byte_len(text)), ident),
        ),
        !is_keyword_access(ident),
    ensures
        is_read_as(state, text, ident),
{
    reveal(low16);
    let width = low16(byte_len(text));
    if state.column + width <= u16::MAX {
        lemma_parse_ident_ok(state, width, ident);
    }
}

/// An uppercase name is read back as a global tag, whatever follows it that is no letter,
/// digit, dot or underscore.
pub proof fn law_reads_back_global_tag(name: Seq<char>, rest: Seq<u8>, state: StateView)
    requires
        is_name(name, uppercase()),
        ends_here(rest),
        !has_at(rest, 0, UNDERSCORE),
        state.bytes == encode_utf8(name) + rest,
    ensures
        is_read_as(state, name, IdentView::GlobalTag(name)),
{
    let bytes = state.bytes;
    lemma_first_char_of_text(name, rest);
    lemma_first_char_ascii(bytes);
    lemma_part_of_name(name, rest, alphabetic());
    encode_utf8_decode_utf8(name);
    lemma_read_as(state, name, IdentView::GlobalTag(name));
}

/// An `@` and an uppercase name are read back as a private tag, whatever follows them that is
/// no letter, digit or dot.
pub proof fn law_reads_back_private_tag(name: Seq<char>, rest: Seq<u8>, state: StateView)
    requires
        is_name(name, uppercase()),
        ends_here(rest),
        state.bytes == encode_utf8(seq!['@'] + name) + rest,
    ensures
        is_read_as(state, seq!['@'] + name, IdentView::PrivateTag(seq!['@'] + name)),
{
    let tag = seq!['@'] + name;
    let bytes = state.bytes;
    lemma_first_char_of_text(tag, rest);
    lemma_first_char_ascii(bytes);
    assert(tag.drop_first() == name);
    lemma_part_of_name(name, rest, uppercase());
    encode_utf8_decode_utf8(tag);
    assert(bytes.take(byte_len(tag)) == encode_utf8(tag));
    assert(private_tag(bytes, state.line, state.column) == Ok::<_, BadIdent>(tag));
    lemma_read_as(state, tag, IdentView::PrivateTag(tag));
}

/// A dot and a lowercase name are read back as an accessor function, whatever follows them
/// that is no letter, digit or dot.
pub proof fn law_reads_back_accessor_function(name: Seq<char>, rest: Seq<u8>, state: StateView)
    requires
        is_name(name, lowercase()),
        ends_here(rest),
        state.bytes == encode_utf8(seq!['.'] + name) + rest,
    ensures
        is_read_as(state, seq!['.'] + name, IdentView::AccessorFunction(name)),
{
    let text = seq!['.'] + name;
    let bytes = state.bytes;
    lemma_encode_dot();
    lemma_encode_concat(seq!['.'], name);
    assert(bytes.skip(1) == encode_utf8(name) + rest);
    lemma_part_of_name(name, rest, lowercase());
    assert(has_at(bytes.skip(1), byte_len(name), DOT) == has_at(rest, 0, DOT));
    encode_utf8_decode_utf8(name);
    lemma_read_as(state, text, IdentView::AccessorFunction(name));
}

/// A name that does not start uppercase, and the lowercase names behind it, with dots between
/// them, are an access without a module.
proof fn lemma_access_of_text(parts: Seq<Seq<char>>, rest: Seq<u8>, row: Row, col: Col)
    requires
        parts.len() > 0,
        is_name(parts[0], alphabetic()),
        !is_uppercase(parts[0][0]),
        are_names(parts.drop_first(), lowercase()),
        ends_here(rest),
        parts.len() == 1 ==> !has_at(rest, 0, UNDERSCORE),
    ensures
        identifier_chain(encode_utf8(joined(parts)) + rest, row, col) == Ok::<_, (u16, BadIdent)>(
            (
                low16(byte_len(joined(parts))),
                IdentView::Access { module_name: seq![], parts },
            ),
        ),
{
    let bytes = encode_utf8(joined(parts)) + rest;
    let first = parts[0];
    let tail = parts.drop_first();
    let after = encode_utf8(dots(tail)) + rest;
    lemma_encode_concat(first, dots(tail));
    assert(bytes == encode_utf8(first) + after);
    lemma_dots_stop(tail, rest);
    lemma_part_of_name(first, after, alphabetic());
    lemma_starts_alphabetic(first, after);
    encode_utf8_decode_utf8(first);
    lemma_access_chain_of_text(tail, rest);
    assert(seq![first] + tail == parts);
    if tail.len() == 0 {
        assert(after == rest);
        assert(parts == seq![first]);
    } else {
        lemma_dots_front(tail, rest);
        lemma_access_chain(after);
    }
}

/// A name that does not start uppercase, and the lowercase names behind it, with dots between
/// them, are read back as an access without a module, whatever follows them that is no
/// letter, digit, dot or, behind one name alone, underscore. The one exception is a keyword
/// in front.
pub proof fn law_reads_back_access(parts: Seq<Seq<char>>, rest: Seq<u8>, state: StateView)
    requires
        parts.len() > 0,
        is_name(parts[0], alphabetic()),
        !is_uppercase(parts[0][0]),
        !is_keyword(parts[0]),
        are_names(parts.drop_first(), lowercase()),
        ends_here(rest),
        parts.len() == 1 ==> !has_at(rest, 0, UNDERSCORE),
        state.bytes == encode_utf8(joined(parts)) + rest,
    ensures
        is_read_as(state, joined(parts), IdentView::Access { module_name: seq![], parts }),
{
    lemma_access_of_text(parts, rest, state.line, state.column);
    lemma_read_as(state, joined(parts), IdentView::Access { module_name: seq![], parts });
}

/// What uppercase names with dots between them come to as bytes, where no more of them follow.
pub proof fn lemma_modules_front(modules: Seq<Seq<char>>, after: Seq<u8>)
    requires
        modules.len() > 0,
        are_names(modules, uppercase()),
        !goes_on(after),
        has_at(after, 0, DOT) ==> !starts_with(after.skip(1), uppercase()),
    ensures
        ({
            let bytes = encode_utf8(joined(modules)) + after;
            let first = byte_len(modules[0]);
            let chain = byte_len(dots(modules.drop_first()));
            &&& !has_at(bytes, 0, DOT) && !has_at(bytes, 0, AT)
            &&& alphabetic_part(bytes) == Some(first)
            &&& uppercase_part(bytes) == Some(first)
            &&& decode_utf8(bytes.take(first)) == modules[0]
            &&& module_chain(bytes.skip(first)) == chain
            &&& byte_len(joined(modules)) == first + chain
            &&& bytes.skip(first + chain) == after
            &&& bytes.take(first + chain) == encode_utf8(joined(modules))
            &&& decode_utf8(bytes.take(first + chain)) == joined(modules)
            &&& has_at(bytes, first, DOT) == (modules.len() > 1 || has_at(after, 0, DOT))
            &&& modules.len() > 1 <==> chain > 0
        }),
{
    let bytes = encode_utf8(joined(modules)) + after;
    let first = modules[0];
    let tail = modules.drop_first();
    let behind_first = encode_utf8(dots(tail)) + after;
    lemma_encode_concat(first, dots(tail));
    assert(bytes == encode_utf8(first) + behind_first);
    lemma_dots_stop(tail, after);
    assert(is_name(first, uppercase()));
    assert(is_name(first, alphabetic()));
    lemma_part_of_name(first, behind_first, alphabetic());
    lemma_part_of_name(first, behind_first, uppercase());
    lemma_starts_alphabetic(first, behind_first);
    encode_utf8_decode_utf8(first);
    assert forall|i: int| 0 <= i < tail.len() implies is_name(#[trigger] tail[i], uppercase()) by {
        assert(tail[i] == modules[i + 1]);
    }
    lemma_module_chain_of_text(tail, after);
    encode_utf8_decode_utf8(joined(modules));
    let n = byte_len(first);
    let chain = byte_len(dots(tail));
    assert(byte_len(joined(modules)) == n + chain);
    assert(bytes.take(n) == encode_utf8(first));
    assert(bytes.skip(n) == behind_first);
    assert(bytes.take(n + chain) == encode_utf8(joined(modules)));
    assert(bytes.skip(n + chain) == after);
    assert(has_at(bytes, n, DOT) == has_at(behind_first, 0, DOT));
    if tail.len() == 0 {
        assert(behind_first == after);
        assert(chain == 0);
    } else {
        lemma_dots_front(tail, after);
        assert(chain > 0);
    }
}

/// Uppercase names and the lowercase names behind them, with dots between them, are read back
/// as an access to a module, whatever follows them that is no letter, digit or dot. Behind the
/// first name the uppercase ones are no more than 16 bits of bytes.
pub proof fn law_reads_back_qualified_access(
    modules: Seq<Seq<char>>,
    parts: Seq<Seq<char>>,
    rest: Seq<u8>,
    state: StateView,
)
    requires
        modules.len() > 0,
        are_names(modules, uppercase()),
        byte_len(dots(modules.drop_first())) <= u16::MAX,
        parts.len() > 0,
        are_names(parts, lowercase()),
        ends_here(rest),
        state.bytes == encode_utf8(joined(modules) + dots(parts)) + rest,
    ensures
        is_read_as(
            state,
            joined(modules) + dots(parts),
            IdentView::Access { module_name: joined(modules), parts },
        ),
{
    let names = encode_utf8(dots(parts)) + rest;
    let text = joined(modules) + dots(parts);
    lemma_encode_concat(joined(modules), dots(parts));
    assert(state.bytes == encode_utf8(joined(modules)) + names);
    lemma_dots_front(parts, rest);
    assert(is_name(parts[0], lowercase()));
    lemma_first_char_of_text(parts[0], encode_utf8(dots(parts.drop_first())) + rest);
    lemma_modules_front(modules, names);
    assert(is_name(modules[0], uppercase()));
    lemma_access_chain_of_text(parts, rest);
    lemma_low16_small(byte_len(dots(modules.drop_first())));
    assert(Seq::<Seq<char>>::empty() + parts == parts);
    lemma_read_as(state, text, IdentView::Access { module_name: joined(modules), parts });
}

/// A lowercase name is read back as it is, but for a keyword, whatever follows it that is no
/// letter or digit.
pub proof fn law_reads_back_lowercase_ident(name: Seq<char>, rest: Seq<u8>, state: StateView)
    requires
        is_name(name, lowercase()),
        !is_keyword(name),
        !goes_on(rest),
        state.bytes == encode_utf8(name) + rest,
    ensures
        is_given_back(lowercase_ident_outcome(state), state, name),
{
    lemma_part_of_name(name, rest, lowercase());
    encode_utf8_decode_utf8(name);
}

/// An uppercase name is read back as it is, as a name and as a tag, whatever follows it that
/// is no letter or digit.
pub proof fn law_reads_back_uppercase_ident(name: Seq<char>, rest: Seq<u8>, state: StateView)
    requires
        is_name(name, uppercase()),
        !goes_on(rest),
        state.bytes == encode_utf8(name) + rest,
    ensures
        is_given_back(uppercase_ident_outcome(state), state, name),
        is_given_back(tag_name_outcome(state), state, name),
{
    lemma_part_of_name(name, rest, uppercase());
    lemma_first_char_of_text(name, rest);
    lemma_first_char_ascii(state.bytes);
    encode_utf8_decode_utf8(name);
}

/// A name of either case is read back as it is, but for a keyword, whatever follows it that
/// is no letter or digit.
pub proof fn law_reads_back_unqualified_ident(name: Seq<char>, rest: Seq<u8>, state: StateView)
    requires
        is_name(name, alphabetic()),
        !is_keyword(name),
        !goes_on(rest),
        state.bytes == encode_utf8(name) + rest,
    ensures
        is_given_back(unqualified_ident_outcome(state), state, name),
{
    lemma_part_of_name(name, rest, alphabetic());
    encode_utf8_decode_utf8(name);
}

/// An identifier that is parsed well has one of the forms of identifiers and is no keyword,
/// the input starts with its text, and it ends where it cannot go on.
pub proof fn law_parse_ident_is_sound(state: StateView)
    ensures
        parse_ident_outcome(state) matches Ok((_, ident, _)) ==> ident is Malformed || {
            let len = byte_len(ident.text());
            &&& is_well_formed(ident)
            &&& !is_keyword_access(ident)
            &&& 0 < len <= state.bytes.len()
            &&& state.bytes.take(len) == encode_utf8(ident.text())
            &&& ends_here(state.bytes.skip(len))
        },
{
    lemma_chain_text(state.bytes, state.line, state.column);
}

/// Parsing an identifier moves over its text and nothing else, where the text is no longer
/// than 16 bits can count; a malformed one of any length does too.
pub proof fn law_parse_ident_consumes_text(state: StateView)
    ensures
        parse_ident_outcome(state) matches Ok((progress, ident, next)) ==> {
            &&& progress == Progress::MadeProgress
            &&& ident is Malformed || byte_len(ident.text()) <= u16::MAX ==> {
                &&& byte_len(ident.text()) > 0
                &&& state.bytes == encode_utf8(ident.text()) + next.bytes
                &&& next == behind(state, ident.text())
            }
        },
{
    lemma_chain_text(state.bytes, state.line, state.column);
    lemma_chain_width(state.bytes, state.line, state.column);
    match identifier_chain(state.bytes, state.line, state.column) {
        Ok((width, ident)) => {
            let len = byte_len(ident.text());
            lemma_low16_small(len);
            assert(state.bytes == state.bytes.take(len) + state.bytes.skip(len));
        },
        Err((width, problem)) => {
            lemma_malformed_text(state, width as int);
        },
    }
}

/// Skipping over a malformed identifier goes over dots, underscores, letters and ASCII digits,
/// and stops at the first character that is none of them.
pub proof fn law_chomp_malformed_skips_to_its_end(bytes: Seq<u8>)
    ensures
        ({
            let chomped = run(bytes, malformed_chars());
            let text = decode_utf8(bytes.take(chomped));
            &&& 0 <= chomped <= bytes.len()
            &&& valid_utf8(bytes.take(chomped))
            &&& forall|i: int| 0 <= i < text.len() ==> is_malformed_char(#[trigger] text[i])
            &&& first_char(bytes.skip(chomped)) matches Some((c, _)) ==> !is_malformed_char(c)
        }),
{
    lemma_run(bytes, malformed_chars());
}

/// A malformed identifier reaches up to the next character that belongs to no identifier, and
/// its problem lies on the line it stands on.
pub proof fn law_malformed_reaches_to_its_end(state: StateView)
    ensures
        parse_ident_outcome(state) matches Ok((_, IdentView::Malformed(text, problem), next)) ==> {
            &&& first_char(next.bytes) matches Some((c, _)) ==> !is_malformed_char(c)
            &&& row_of(problem) == state.line
            &&& !(problem is Start) && !(problem is Space)
        },
{
    lemma_chain_text(state.bytes, state.line, state.column);
    lemma_chain_width(state.bytes, state.line, state.column);
    if let Err((width, problem)) = identifier_chain(state.bytes, state.line, state.column) {
        lemma_malformed_text(state, width as int);
    }
}

/// The line on which a problem lies.
pub open spec fn row_of(problem: BadIdent) -> Row {
    match problem {
        BadIdent::Start(row, _) => row,
        BadIdent::Space(_, row, _) => row,
        BadIdent::Underscore(row, _) => row,
        BadIdent::QualifiedTag(row, _) => row,
        BadIdent::WeirdAccessor(row, _) => row,
        BadIdent::WeirdDotAccess(row, _) => row,
        BadIdent::WeirdDotQualified(row, _) => row,
        BadIdent::StrayDot(row, _) => row,
        BadIdent::BadPrivateTag(row, _) => row,
    }
}

/// The column at which a problem lies.
pub open spec fn col_of(problem: BadIdent) -> Col {
    match problem {
        BadIdent::Start(_, col) => col,
        BadIdent::Space(_, _, col) => col,
        BadIdent::Underscore(_, col) => col,
        BadIdent::QualifiedTag(_, col) => col,
        BadIdent::WeirdAccessor(_, col) => col,
        BadIdent::WeirdDotAccess(_, col) => col,
        BadIdent::WeirdDotQualified(_, col) => col,
        BadIdent::StrayDot(_, col) => col,
        BadIdent::BadPrivateTag(_, col) => col,
    }
}

/// Where a problem lies against where the identifier went wrong.
proof fn lemma_problem_column(bytes: Seq<u8>, row: Row, col: Col)
    ensures
        identifier_chain(bytes, row, col) matches Err((width, problem)) ==> match problem {
            BadIdent::WeirdAccessor(_, at) => at == col,
            BadIdent::BadPrivateTag(_, at) => {
                &&& width == 1
                &&& col + extent(bytes) <= u16::MAX ==> col < at <= col + extent(bytes)
            },
            _ => col + width <= u16::MAX ==> col_of(problem) == col + width,
        },
{
    lemma_first_char_ascii(bytes);
    lemma_low16_small(col + 1);
    if let Err((width, problem)) = identifier_chain(bytes, row, col) {
        lemma_low16_small(col + width);
        if has_at(bytes, 0, AT) {
            lemma_run(bytes.skip(1), malformed_chars());
            lemma_tail_within(bytes, row, col);
            lemma_part(bytes.skip(1), uppercase());
            if let Some(n) = uppercase_part(bytes.skip(1)) {
                lemma_low16_small(col + 1 + n);
            }
        } else if let Some(end) = alphabetic_part(bytes) {
            let module_end = end + if is_uppercase(decode_utf8(bytes.take(end))[0]) {
                low16(module_chain(bytes.skip(end)))
            } else {
                0
            };
            let stopped = low16(access_chain(bytes.skip(module_end)).width + 1);
            lemma_low16_sum(end + 1, col as int);
            lemma_low16_sum(module_end, col as int);
            lemma_low16_sum(module_end + 1, col as int);
            lemma_low16_sum(module_end + stopped, col as int);
        }
    }
}

/// The problem of a malformed identifier lies at one of its columns or right behind the last: at
/// the first for an accessor function with a dot behind it, and past the first for any other.
pub proof fn law_problem_lies_within(state: StateView)
    ensures
        parse_ident_outcome(state) matches Ok((_, IdentView::Malformed(text, problem), next)) ==> {
            &&& state.column <= col_of(problem) <= next.column
            &&& problem is WeirdAccessor ==> col_of(problem) == state.column
            &&& problem is WeirdAccessor || state.column < col_of(problem)
        },
{
    let bytes = state.bytes;
    lemma_first_char_ascii(bytes);
    lemma_first_char_width(bytes);
    lemma_chain_text(bytes, state.line, state.column);
    lemma_chain_width(bytes, state.line, state.column);
    lemma_problem_column(bytes, state.line, state.column);
    if let Err((width, problem)) = identifier_chain(bytes, state.line, state.column) {
        lemma_malformed_text(state, width as int);
    }
}

/// Parsing an identifier never fails with progress. Where it finds no start the state is as
/// before and the error points at it; the only other failure is a line that is too long.
pub proof fn law_parse_ident_fails_without_progress(state: StateView)
    ensures
        parse_ident_outcome(state) matches Err((progress, error, stopped)) ==> {
            &&& progress == Progress::NoProgress
            &&& match error {
                EExpr::Start(row, col) => {
                    stopped == state && row == state.line && col == state.column
                },
                EExpr::Space(problem, row, col) => {
                    &&& problem == BadInputError::LineTooLong
                    &&& row == stopped.line == state.line
                    &&& col == stopped.column
                },
            }
        },
{
}

/// Where an identifier stands makes no difference to what it is, nor to how far it goes
/// before it is wrong.
pub proof fn law_position_makes_no_difference(
    bytes: Seq<u8>,
    row: Row,
    col: Col,
    other_row: Row,
    other_col: Col,
)
    ensures
        match identifier_chain(bytes, row, col) {
            Ok((width, ident)) => identifier_chain(bytes, other_row, other_col) == Ok::<
                _,
                (u16, BadIdent),
            >((width, ident)),
            Err((width, _)) => {
                identifier_chain(bytes, other_row, other_col) matches Err((other_width, _))
                    && width == other_width
            },
        },
{
}

/// Whether `next` is `state` moved forward within the line, by one column for each byte.
pub open spec fn is_further(state: StateView, next: StateView) -> bool {
    let n = state.bytes.len() - next.bytes.len();
    &&& 0 <= n
    &&& next.bytes == state.bytes.skip(n)
    &&& next.line == state.line
    &&& next.column == state.column + n
}

/// Whatever is parsed, the state goes on behind it in the same line, and the column counts
/// its bytes.
pub proof fn law_columns_count_bytes(state: StateView)
    ensures
        lowercase_ident_outcome(state) matches Ok((_, _, next)) ==> is_further(state, next),
        uppercase_ident_outcome(state) matches Ok((_, _, next)) ==> is_further(state, next),
        unqualified_ident_outcome(state) matches Ok((_, _, next)) ==> is_further(state, next),
        tag_name_outcome(state) matches Ok((_, _, next)) ==> is_further(state, next),
        concrete_type_outcome(state) matches Ok((_, _, next)) ==> is_further(state, next),
        parse_ident_outcome(state) matches Ok((_, _, next)) ==> is_further(state, next),
{
    lemma_names_further(state);
    lemma_concrete_type_further(state);
    lemma_ident_further(state);
}

/// The parsers of single names count the bytes they move over.
proof fn lemma_names_further(state: StateView)
    ensures
        lowercase_ident_outcome(state) matches Ok((_, _, next)) ==> is_further(state, next),
        uppercase_ident_outcome(state) matches Ok((_, _, next)) ==> is_further(state, next),
        unqualified_ident_outcome(state) matches Ok((_, _, next)) ==> is_further(state, next),
        tag_name_outcome(state) matches Ok((_, _, next)) ==> is_further(state, next),
{
    let bytes = state.bytes;
    lemma_part(bytes, lowercase());
    lemma_part(bytes, uppercase());
    lemma_part(bytes, alphabetic());
    if has_at(bytes, 0, AT) {
        lemma_part(bytes.skip(1), uppercase());
        if let Some(n) = uppercase_part(bytes.skip(1)) {
            lemma_ascii_then_text(bytes, 1 + n);
            decode_utf8_encode_utf8(bytes.take(1 + n));
        }
    }
}

/// The parser of type names counts the bytes it moves over.
proof fn lemma_concrete_type_further(state: StateView)
    ensures
        concrete_type_outcome(state) matches Ok((_, _, next)) ==> is_further(state, next),
{
    let bytes = state.bytes;
    lemma_part(bytes, uppercase());
    if let Some(first) = uppercase_part(bytes) {
        lemma_module_chain(bytes.skip(first));
        lemma_low16_small(module_chain(bytes.skip(first)));
    }
}

/// The parser of identifiers counts the bytes it moves over.
proof fn lemma_ident_further(state: StateView)
    ensures
        parse_ident_outcome(state) matches Ok((_, _, next)) ==> is_further(state, next),
{
    lemma_chain_width(state.bytes, state.line, state.column);
    if let Err((width, problem)) = identifier_chain(state.bytes, state.line, state.column) {
        lemma_malformed_text(state, width as int);
    }
}

/// A parser of names that fails gives back the state it was given.
pub proof fn law_failed_names_keep_the_state(state: StateView)
    ensures
        lowercase_ident_outcome(state) matches Err((_, _, stopped)) ==> stopped == state,
        uppercase_ident_outcome(state) matches Err((_, _, stopped)) ==> stopped == state,
        unqualified_ident_outcome(state) matches Err((_, _, stopped)) ==> stopped == state,
        tag_name_outcome(state) matches Err((_, _, stopped)) ==> stopped == state,
        concrete_type_outcome(state) matches Err((_, _, stopped)) ==> stopped == state,
{
}

/// No parser of identifiers gives back a keyword as a name.
pub proof fn law_no_keyword_is_a_name(state: StateView)
    ensures
        lowercase_ident_outcome(state) matches Ok((_, name, _)) ==> !is_keyword(name),
        unqualified_ident_outcome(state) matches Ok((_, name, _)) ==> !is_keyword(name),
        parse_ident_outcome(state) matches Ok((_, ident, _)) ==> !is_keyword_access(ident),
{
}

/// Every keyword is a lowercase name.
proof fn lemma_keyword_is_name(word: Seq<char>)
    requires
        is_keyword(word),
    ensures
        is_name(word, lowercase()),
        is_name(word, alphabetic()),
        !is_uppercase(word[0]),
{
    reveal_strlit("if");
    reveal_strlit("then");
    reveal_strlit("else");
    reveal_strlit("when");
    reveal_strlit("as");
    reveal_strlit("is");
    reveal_strlit("expect");
    let i = choose|i: int| 0 <= i < KEYWORDS@.len() && #[trigger] KEYWORDS@[i]@ == word;
    assert(KEYWORDS@[i]@ == word);
}

/// A keyword is refused by every parser that could take it for a name, where it ends as a
/// name ends. For a lowercase name that is no progress, for an unqualified one it is.
pub proof fn law_keywords_are_refused(word: Seq<char>, rest: Seq<u8>, state: StateView)
    requires
        is_keyword(word),
        !goes_on(rest),
        state.bytes == encode_utf8(word) + rest,
    ensures
        lowercase_ident_outcome(state) == Err::<(Progress, Seq<char>, StateView), _>(
            (Progress::NoProgress, (), state),
        ),
        unqualified_ident_outcome(state) == Err::<(Progress, Seq<char>, StateView), _>(
            (Progress::MadeProgress, (), state),
        ),
        ends_here(rest) && !has_at(rest, 0, UNDERSCORE) ==> {
            parse_ident_outcome(state) == Err::<(Progress, IdentView, StateView), _>(
                (Progress::NoProgress, EExpr::Start(state.line, state.column), state),
            )
        },
{
    lemma_keyword_is_name(word);
    lemma_part_of_name(word, rest, lowercase());
    lemma_part_of_name(word, rest, alphabetic());
    lemma_starts_alphabetic(word, rest);
    encode_utf8_decode_utf8(word);
}

/// A keyword with fields behind it is refused as a keyword alone is.
pub proof fn law_fields_of_keywords_are_refused(
    parts: Seq<Seq<char>>,
    rest: Seq<u8>,
    state: StateView,
)
    requires
        parts.len() > 0,
        is_keyword(parts[0]),
        are_names(parts.drop_first(), lowercase()),
        ends_here(rest),
        parts.len() == 1 ==> !has_at(rest, 0, UNDERSCORE),
        state.bytes == encode_utf8(joined(parts)) + rest,
    ensures
        parse_ident_outcome(state) == Err::<(Progress, IdentView, StateView), _>(
            (Progress::NoProgress, EExpr::Start(state.line, state.column), state),
        ),
        identifier_chain(state.bytes, state.line, state.column) == Ok::<_, (u16, BadIdent)>(
            (
                (byte_len(joined(parts)) % 0x1_0000) as u16,
                IdentView::Access { module_name: seq![], parts },
            ),
        ),
{
    reveal(low16);
    lemma_keyword_is_name(parts[0]);
    lemma_access_of_text(parts, rest, state.line, state.column);
}

/// What the parser of lowercase names gives back, the parser of unqualified names gives back
/// too, with the same state behind it, and so for uppercase names that are no keyword.
pub proof fn law_unqualified_ident_agrees_with_either_case(state: StateView)
    ensures
        lowercase_ident_outcome(state) is Ok ==> {
            unqualified_ident_outcome(state) == lowercase_ident_outcome(state)
        },
        uppercase_ident_outcome(state) matches Ok((_, name, _)) ==> {
            !is_keyword(name) ==> unqualified_ident_outcome(state) == uppercase_ident_outcome(state)
        },
{
}

/// The parser of unqualified names also takes a name that starts with a letter of neither case,
/// where the line is not too long. The parsers of lowercase and of uppercase names refuse it,
/// without progress.
pub proof fn law_unqualified_ident_takes_letters_of_neither_case(
    name: Seq<char>,
    rest: Seq<u8>,
    state: StateView,
)
    requires
        is_name(name, alphabetic()),
        !is_lowercase(name[0]),
        !is_uppercase(name[0]),
        !goes_on(rest),
        state.bytes == encode_utf8(name) + rest,
    ensures
        lowercase_ident_outcome(state) == Err::<(Progress, Seq<char>, StateView), _>(
            (Progress::NoProgress, (), state),
        ),
        uppercase_ident_outcome(state) == Err::<(Progress, Seq<char>, StateView), _>(
            (Progress::NoProgress, (), state),
        ),
        is_given_back(unqualified_ident_outcome(state), state, name),
{
    lemma_first_char_of_text(name, rest);
    lemma_part_of_name(name, rest, alphabetic());
    encode_utf8_decode_utf8(name);
    if is_keyword(name) {
        lemma_keyword_is_name(name);
    }
}

/// What is parsed as a tag is what the parser of tags gives back too, where the tag is no
/// longer than 16 bits can count.
pub proof fn law_tag_name_agrees_with_parse_ident(state: StateView)
    ensures
        parse_ident_outcome(state) matches Ok((_, IdentView::GlobalTag(tag), next)) ==> {
            byte_len(tag) <= u16::MAX ==> tag_name_outcome(state) == Ok::<
                _,
                (Progress, (), StateView),
            >((Progress::MadeProgress, tag, next))
        },
        parse_ident_outcome(state) matches Ok((_, IdentView::PrivateTag(tag), next)) ==> {
            byte_len(tag) <= u16::MAX ==> tag_name_outcome(state) == Ok::<
                _,
                (Progress, (), StateView),
            >((Progress::MadeProgress, tag, next))
        },
{
    lemma_chain_text(state.bytes, state.line, state.column);
    if let Ok((width, ident)) = identifier_chain(state.bytes, state.line, state.column) {
        lemma_low16_small(byte_len(ident.text()));
        if ident is GlobalTag {
            let n = alphabetic_part(state.bytes)->0;
            lemma_part(state.bytes, alphabetic());
            decode_utf8_encode_utf8(state.bytes.take(n));
            lemma_first_char_of_text(ident.text(), state.bytes.skip(n));
            assert(state.bytes == encode_utf8(ident.text()) + state.bytes.skip(n));
            assert(uppercase_part(state.bytes) == Some(n));
        }
    }
}

/// `Ident::len` counts the bytes of an identifier's text, but for the dot in front of an
/// accessor function.
pub proof fn law_len_counts_text(ident: IdentView)
    requires
        ident matches IdentView::Access { module_name, parts } ==> module_name.len() > 0
            || parts.len() > 0,
    ensures
        byte_len(ident.text()) == if ident is AccessorFunction {
            ident.len() + 1
        } else {
            ident.len()
        },
{
    match ident {
        IdentView::Access { module_name, parts } => {
            lemma_dots_len(parts);
            if module_name.len() > 0 {
                lemma_encode_concat(module_name, dots(parts));
            } else {
                lemma_encode_concat(parts[0], dots(parts.drop_first()));
                lemma_encode_dot();
                lemma_encode_concat(seq!['.'], parts[0]);
                lemma_encode_concat(seq!['.'] + parts[0], dots(parts.drop_first()));
            }
        },
        IdentView::AccessorFunction(name) => {
            lemma_encode_dot();
            lemma_encode_concat(seq!['.'], name);
        },
        _ => {},
    }
}

/// Parsing a type name moves over the module, the dot between and the name, and over nothing
/// else.
pub proof fn law_concrete_type_consumes_text(state: StateView)
    ensures
        concrete_type_outcome(state) matches Ok((progress, (module_name, name), next)) ==> {
            &&& progress == Progress::MadeProgress
            &&& state.bytes == encode_utf8(concrete_text(module_name, name)) + next.bytes
            &&& next == behind(state, concrete_text(module_name, name))
        },
{
    let bytes = state.bytes;
    lemma_part(bytes, uppercase());
    if let Some(first) = uppercase_part(bytes) {
        let chain = module_chain(bytes.skip(first));
        let width = first + low16(chain);
        lemma_module_chain(bytes.skip(first));
        lemma_low16_small(chain);
        decode_utf8_encode_utf8(bytes.take(first));
        assert(bytes == bytes.take(first) + bytes.skip(first));
        if let Some(dot) = last_dot(bytes.take(width)) {
            lemma_last_dot(bytes.take(width));
            lemma_module_name(bytes, first, dot);
            let module_bytes = bytes.take(dot);
            let name_bytes = bytes.subrange(dot + 1, width);
            if valid_utf8(name_bytes) {
                let module_name = decode_utf8(module_bytes);
                let name = decode_utf8(name_bytes);
                decode_utf8_encode_utf8(module_bytes);
                decode_utf8_encode_utf8(name_bytes);
                lemma_encode_dot();
                lemma_encode_concat(module_name, seq!['.']);
                lemma_encode_concat(module_name + seq!['.'], name);
                assert(bytes.take(width) == module_bytes + seq![DOT] + name_bytes);
                assert(bytes == bytes.take(width) + bytes.skip(width));
                // the first character is no dot, so the module has a name
                if dot == 0 {
                    lemma_first_char_ascii(bytes);
                }
                if module_name.len() == 0 {
                    assert(encode_utf8(module_name) == Seq::<u8>::empty());
                }
            }
        }
    }
}

/// A name that is parsed starts with a character of its class and goes on with letters and
/// digits, the input starts with it, and no letter or digit follows it. A tag is such an
/// uppercase name, with an `@` in front where the input starts with one; then no dot follows
/// either.
pub proof fn law_names_are_sound(state: StateView)
    ensures
        lowercase_ident_outcome(state) matches Ok((_, name, next)) ==> {
            is_name(name, lowercase()) && is_name_off(state, name, next)
        },
        uppercase_ident_outcome(state) matches Ok((_, name, next)) ==> {
            is_name(name, uppercase()) && is_name_off(state, name, next)
        },
        unqualified_ident_outcome(state) matches Ok((_, name, next)) ==> {
            is_name(name, alphabetic()) && is_name_off(state, name, next)
        },
        tag_name_outcome(state) matches Ok((_, tag, next)) ==> {
            &&& is_name_off(state, tag, next)
            &&& if has_at(state.bytes, 0, AT) {
                &&& tag[0] == '@'
                &&& is_name(tag.drop_first(), uppercase())
                &&& ends_here(next.bytes)
            } else {
                is_name(tag, uppercase())
            }
        },
{
    let bytes = state.bytes;
    lemma_name_off(state, lowercase());
    lemma_name_off(state, uppercase());
    lemma_name_off(state, alphabetic());
    if has_at(bytes, 0, AT) {
        lemma_part(bytes.skip(1), uppercase());
        if let Some(n) = uppercase_part(bytes.skip(1)) {
            let tag = decode_utf8(bytes.take(1 + n));
            lemma_ascii_then_text(bytes, 1 + n);
            decode_utf8_encode_utf8(bytes.take(1 + n));
            assert(tag.drop_first() == decode_utf8(bytes.skip(1).take(n)));
            assert(bytes.skip(1).skip(n) == bytes.skip(1 + n));
            assert(bytes == bytes.take(1 + n) + bytes.skip(1 + n));
        }
    }
}

/// Whether `state` starts with `name`, and `next` stands behind it where no name goes on.
pub open spec fn is_name_off(state: StateView, name: Seq<char>, next: StateView) -> bool {
    &&& name.len() > 0
    &&& state.bytes == encode_utf8(name) + next.bytes
    &&& next == behind(state, name)
    &&& !goes_on(next.bytes)
}

/// A part is a name that was read off the bytes.
proof fn lemma_name_off(state: StateView, leading: spec_fn(char) -> bool)
    ensures
        part(state.bytes, leading) matches Some(n) ==> {
            &&& is_name(name_at(state, n), leading)
            &&& advanced(state, n) matches Some(next) ==> is_name_off(
                state,
                name_at(state, n),
                next,
            )
        },
{
    lemma_part(state.bytes, leading);
    if let Some(n) = part(state.bytes, leading) {
        decode_utf8_encode_utf8(state.bytes.take(n));
        assert(state.bytes == state.bytes.take(n) + state.bytes.skip(n));
    }
}

/// A type that is parsed is in no module or in one of uppercase names with dots between them.
/// Where 16 bits can count the names behind the first, its own name is an uppercase name, and no
/// letter, digit or dot follows it.
pub proof fn law_concrete_type_is_sound(state: StateView)
    ensures
        concrete_type_outcome(state) matches Ok((_, (module_name, name), next)) ==> {
            &&& module_name.len() == 0 || is_module_name(module_name)
            &&& module_chain(state.bytes.skip(uppercase_part(state.bytes)->0)) <= u16::MAX ==> {
                &&& is_name(name, uppercase())
                &&& !name.contains('.')
                &&& ends_here(next.bytes)
            }
        },
{
    let bytes = state.bytes;
    lemma_part(bytes, uppercase());
    if let Some(first) = uppercase_part(bytes) {
        let chain = module_chain(bytes.skip(first));
        let width = first + low16(chain);
        lemma_module_chain(bytes.skip(first));
        lemma_low16_small(chain);
        if let Some(dot) = last_dot(bytes.take(width)) {
            lemma_last_dot(bytes.take(width));
            lemma_module_off(bytes, first, dot);
        }
        if has_at(bytes, first, DOT) && 0 < chain <= u16::MAX {
            lemma_last_name_off(bytes, first);
            lemma_module_chain_stops(bytes.skip(first));
            assert(bytes.skip(first).skip(chain) == bytes.skip(width));
        }
    }
}

/// What stands in front of a dot in a type name is uppercase names with dots between them.
proof fn lemma_module_off(bytes: Seq<u8>, first: int, dot: int)
    requires
        uppercase_part(bytes) == Some(first),
        has_at(bytes, dot, DOT),
        dot <= first + module_chain(bytes.skip(first)),
    ensures
        is_module_name(decode_utf8(bytes.take(dot))),
{
    lemma_part(bytes, uppercase());
    lemma_module_chain(bytes.skip(first));
    let name = decode_utf8(bytes.take(first));
    lemma_no_dot_bytes(bytes.take(first));
    if dot < first {
        assert(bytes[dot] == bytes.take(first)[dot]);
    }
    let tail_bytes = bytes.skip(first).take(dot - first);
    lemma_module_chain_text(bytes.skip(first), dot - first);
    let tail = choose|tail: Seq<Seq<char>>|
        are_names(tail, uppercase()) && decode_utf8(tail_bytes) == #[trigger] dots(tail);
    lemma_module_off_names(bytes, first, dot, tail);
    assert(decode_utf8(bytes.take(dot)) == joined(seq![name] + tail));
}

/// A first uppercase name, and the names of the chain behind it.
pub proof fn lemma_module_off_names(bytes: Seq<u8>, first: int, end: int, tail: Seq<Seq<char>>)
    requires
        uppercase_part(bytes) == Some(first),
        first <= end <= bytes.len(),
        valid_utf8(bytes.skip(first).take(end - first)),
        are_names(tail, uppercase()),
        decode_utf8(bytes.skip(first).take(end - first)) == dots(tail),
    ensures
        ({
            let names = seq![decode_utf8(bytes.take(first))] + tail;
            &&& are_names(names, uppercase())
            &&& bytes.take(end) == encode_utf8(joined(names))
            &&& decode_utf8(bytes.take(end)) == joined(names)
        }),
{
    lemma_part(bytes, uppercase());
    let name = decode_utf8(bytes.take(first));
    let tail_bytes = bytes.skip(first).take(end - first);
    let names = seq![name] + tail;
    decode_utf8_encode_utf8(bytes.take(first));
    decode_utf8_encode_utf8(tail_bytes);
    assert(names.drop_first() == tail);
    assert(is_name(name, uppercase()));
    assert forall|i: int| 0 <= i < names.len() implies is_name(
        #[trigger] names[i],
        uppercase(),
    ) by {
        if i > 0 {
            assert(names[i] == tail[i - 1]);
        }
    }
    lemma_encode_concat(name, dots(tail));
    assert(bytes.take(end) == bytes.take(first) + tail_bytes);
    encode_utf8_decode_utf8(joined(names));
}

/// What stands behind the last dot of a type name is an uppercase name.
pub proof fn lemma_last_name_off(bytes: Seq<u8>, first: int)
    requires
        uppercase_part(bytes) == Some(first),
        module_chain(bytes.skip(first)) > 0,
    ensures
        ({
            let width = first + module_chain(bytes.skip(first));
            last_dot(bytes.take(width)) matches Some(dot) && valid_utf8(
                bytes.subrange(dot + 1, width),
            ) && is_name(decode_utf8(bytes.subrange(dot + 1, width)), uppercase())
        }),
{
    let chain = module_chain(bytes.skip(first));
    let width = first + chain;
    lemma_part(bytes, uppercase());
    lemma_module_chain(bytes.skip(first));
    lemma_module_chain_text(bytes.skip(first), chain);
    let tail_bytes = bytes.skip(first).take(chain);
    let tail = choose|tail: Seq<Seq<char>>|
        are_names(tail, uppercase()) && decode_utf8(tail_bytes) == #[trigger] dots(tail);
    lemma_module_off_names(bytes, first, width, tail);
    let names = seq![decode_utf8(bytes.take(first))] + tail;
    decode_utf8_encode_utf8(tail_bytes);
    assert(tail.len() > 0);
    let modules = names.drop_last();
    let name = names.last();
    assert(names == modules.push(name));
    assert(is_name(names[names.len() - 1], uppercase()));
    assert forall|i: int| 0 <= i < modules.len() implies (#[trigger] modules[i]).len() > 0 by {
        assert(is_name(names[i], uppercase()));
    }
    lemma_joined_push(modules, name);
    lemma_last_name(joined(modules), name, bytes.skip(width));
    assert(bytes == encode_utf8(joined(names)) + bytes.skip(width));
}

/// What does not start like an identifier starts no expression. What does is parsed as one,
/// malformed or not, unless it is a keyword or what could belong to it reaches past the columns
/// that 16 bits can count.
pub proof fn law_what_starts_like_an_identifier_is_one(state: StateView)
    ensures
        !starts_like_identifier(state.bytes) ==> {
            parse_ident_outcome(state) == Err::<(Progress, IdentView, StateView), _>(
                (Progress::NoProgress, EExpr::Start(state.line, state.column), state),
            )
        },
        starts_like_identifier(state.bytes) ==> {
            ||| parse_ident_outcome(state) is Ok
            ||| identifier_chain(state.bytes, state.line, state.column) matches Ok((_, ident))
                && is_keyword_access(ident)
            ||| state.column + extent(state.bytes) > u16::MAX
        },
{
    let bytes = state.bytes;
    lemma_first_char_ascii(bytes);
    lemma_first_char_width(bytes);
    lemma_chain_width(bytes, state.line, state.column);
    if starts_like_identifier(bytes) && state.column + extent(bytes) <= u16::MAX {
        lemma_chain_within(bytes, state.line, state.column);
        if let Err((width, problem)) = identifier_chain(bytes, state.line, state.column) {
            lemma_malformed_within(bytes, width as int);
        }
    }
}

/// A malformed identifier is what could belong to it, and whole characters.
proof fn lemma_malformed_within(bytes: Seq<u8>, width: int)
    requires
        0 <= width <= bytes.len(),
        valid_utf8(bytes.take(width)),
        width + run(bytes.skip(width), malformed_chars()) == extent(bytes),
    ensures
        ({
            let chomped = run(bytes.skip(width), malformed_chars());
            &&& 0 <= chomped
            &&& width + chomped == extent(bytes)
            &&& valid_utf8(bytes.take(chomped + width))
        }),
{
    let rest = bytes.skip(width);
    let chomped = run(rest, malformed_chars());
    lemma_run(rest, malformed_chars());
    valid_utf8_concat(bytes.take(width), rest.take(chomped));
    assert(bytes.take(chomped + width) == bytes.take(width) + rest.take(chomped));
}

/// An underscore behind a name makes an identifier malformed: it takes the name, the
/// underscore and all that follows and could belong to it, and the problem lies behind the
/// underscore.
pub proof fn law_underscore_is_malformed(name: Seq<char>, rest: Seq<u8>, state: StateView)
    requires
        is_name(name, alphabetic()),
        state.bytes == encode_utf8(name + seq!['_']) + rest,
        state.column + byte_len(name) + 1 + run(rest, malformed_chars()) <= u16::MAX,
    ensures
        ({
            let end = byte_len(name) + 1;
            let text = decode_utf8(state.bytes.take(end + run(rest, malformed_chars())));
            parse_ident_outcome(state) == Ok::<_, (Progress, EExpr, StateView)>(
                (
                    Progress::MadeProgress,
                    IdentView::Malformed(
                        text,
                        BadIdent::Underscore(state.line, (state.column + end) as u16),
                    ),
                    behind(state, text),
                ),
            )
        }),
{
    let bytes = state.bytes;
    let after = encode_utf8(seq!['_']) + rest;
    let end = byte_len(name) + 1;
    lemma_encode_concat(name, seq!['_']);
    assert(bytes == encode_utf8(name) + after);
    lemma_first_char_of_text(seq!['_'], rest);
    lemma_first_char_ascii(after);
    assert(seq!['_'].drop_first() == Seq::<char>::empty());
    assert(after.skip(1) == rest);
    lemma_part_of_name(name, after, alphabetic());
    lemma_starts_alphabetic(name, after);
    encode_utf8_decode_utf8(name);
    lemma_run(rest, malformed_chars());
    lemma_low16_small(end);
    lemma_low16_small(state.column + end);
    assert(bytes.skip(end) == rest);
    encode_utf8_valid_utf8(name + seq!['_']);
    valid_utf8_concat(encode_utf8(name + seq!['_']), rest.take(run(rest, malformed_chars())));
    let whole = bytes.take(end + run(rest, malformed_chars()));
    assert(whole == encode_utf8(name + seq!['_']) + rest.take(run(rest, malformed_chars())));
    decode_utf8_encode_utf8(whole);
    lemma_malformed_text(state, end);
}

/// Uppercase names with dots between them are read back as a type: the last one is its name,
/// and those before it are its module, whatever follows them that is no letter, digit or dot.
/// Behind the first name they are no more than 16 bits of bytes.
pub proof fn law_reads_back_concrete_type(
    modules: Seq<Seq<char>>,
    name: Seq<char>,
    rest: Seq<u8>,
    state: StateView,
)
    requires
        are_names(modules.push(name), uppercase()),
        ends_here(rest),
        state.bytes == encode_utf8(joined(modules.push(name))) + rest,
        byte_len(dots(modules.push(name).drop_first())) <= u16::MAX,
    ensures
        joined(modules.push(name)) == concrete_text(joined(modules), name),
        concrete_name(state.bytes) == Ok::<_, Progress>(
            (joined(modules), name, byte_len(joined(modules.push(name)))),
        ),
        concrete_type_outcome(state) == if state.column + byte_len(joined(modules.push(name)))
            <= u16::MAX {
            Ok::<_, (Progress, (), StateView)>(
                (
                    Progress::MadeProgress,
                    (joined(modules), name),
                    behind(state, joined(modules.push(name))),
                ),
            )
        } else {
            Err((Progress::NoProgress, (), state))
        },
{
    let names = modules.push(name);
    let text = joined(names);
    assert forall|i: int| 0 <= i < modules.len() implies (#[trigger] modules[i]).len() > 0 by {
        assert(is_name(names[i], uppercase()));
    }
    lemma_joined_push(modules, name);
    if modules.len() == 0 {
        assert(names == seq![name]);
        assert(is_name(names[0], uppercase()));
        lemma_part_of_name(name, rest, uppercase());
        encode_utf8_decode_utf8(name);
        assert(has_at(state.bytes, byte_len(name), DOT) == has_at(rest, 0, DOT));
    } else {
        lemma_modules_of_text(names, rest);
        assert(is_name(names[names.len() - 1], uppercase()));
        lemma_last_name(joined(modules), name, rest);
        lemma_low16_small(byte_len(dots(names.drop_first())));
        assert(has_at(state.bytes, byte_len(text), DOT) == has_at(rest, 0, DOT));
    }
}

} // verus!
