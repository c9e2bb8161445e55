//! Which problem each malformed identifier has, and where.
use vstd::prelude::*;
use vstd::utf8::{encode_utf8, encode_utf8_decode_utf8, encode_utf8_valid_utf8};
use crate::chars::{is_alphabetic, is_uppercase, lemma_first_char_ascii, lemma_first_char_width};
use crate::grammar::{
    access_chain, alphabetic, byte_len, dotted, has_at, identifier_chain, is_malformed_char,
    lemma_access_chain, lemma_low16_small, low16, lowercase, malformed_chars, run, uppercase, DOT,
    UNDERSCORE,
};
use crate::ident::{BadIdent, IdentView};
use crate::laws::{behind, lemma_modules_front};
use crate::outcomes::parse_ident_outcome;
use crate::parser::{BadInputError, Col, EExpr, Progress, Row};
use crate::state::StateView;
use crate::text::{
    are_names, dots, ends_here, is_name, joined, lemma_access_chain_of_text, lemma_dots_front,
    lemma_dots_stop, lemma_encode_concat, lemma_first_char_of_text, lemma_part_of_name,
    lemma_run_of_text, lemma_starts_alphabetic, starts_with,
};

verus! {

/// Whether `more` could all belong to a malformed identifier, and nothing behind it could.
pub open spec fn trails_off(more: Seq<char>, rest: Seq<u8>) -> bool {
    &&& forall|i: int| 0 <= i < more.len() ==> is_malformed_char(#[trigger] more[i])
    &&& !starts_with(rest, malformed_chars())
}

/// The column `n` bytes behind `state`. Columns wrap around.
pub open spec fn column_behind(state: StateView, n: int) -> Col {
    ((state.column + n) % 0x1_0000) as u16
}

/// Whether an identifier that goes wrong behind `before`, and trails off with `more`, is reported
/// with `problem`. It is given back whole as malformed. Where only `before` fits the line, the
/// line is too long behind it; where not even that does, no expression starts.
pub open spec fn is_reported(
    state: StateView,
    before: Seq<char>,
    more: Seq<char>,
    problem: BadIdent,
) -> bool {
    let text = before + more;
    &&& identifier_chain(state.bytes, state.line, state.column) == Err::<(u16, IdentView), _>(
        (byte_len(before) as u16, problem),
    )
    &&& parse_ident_outcome(state) == if state.column + byte_len(text) <= u16::MAX {
        Ok((Progress::MadeProgress, IdentView::Malformed(text, problem), behind(state, text)))
    } else if state.column + byte_len(before) <= u16::MAX {
        Err(
            (
                Progress::NoProgress,
                EExpr::Space(
                    BadInputError::LineTooLong,
                    state.line,
                    (state.column + byte_len(before)) as u16,
                ),
                behind(state, before),
            ),
        )
    } else {
        Err((Progress::NoProgress, EExpr::Start(state.line, state.column), state))
    }
}

/// What goes wrong behind `before` is reported with all that trails off behind it.
proof fn lemma_reported(
    state: StateView,
    before: Seq<char>,
    more: Seq<char>,
    rest: Seq<u8>,
    problem: BadIdent,
)
    requires
        state.bytes == encode_utf8(before + more) + rest,
        0 < byte_len(before) <= u16::MAX,
        trails_off(more, rest),
        identifier_chain(state.bytes, state.line, state.column) == Err::<(u16, IdentView), _>(
            (byte_len(before) as u16, problem),
        ),
    ensures
        is_reported(state, before, more, problem),
{
    let text = before + more;
    let width = byte_len(before);
    let after = encode_utf8(more) + rest;
    lemma_encode_concat(before, more);
    assert(state.bytes.skip(width) == after);
    lemma_run_of_text(more, rest, malformed_chars());
    assert(run(rest, malformed_chars()) == 0);
    assert(state.bytes.take(byte_len(text)) == encode_utf8(text));
    encode_utf8_decode_utf8(text);
    encode_utf8_valid_utf8(text);
    assert(state.bytes.skip(width).skip(byte_len(more)) == state.bytes.skip(byte_len(text)));
}

/// The encoding of an ASCII character is one byte.
proof fn lemma_encode_ascii(c: char, text: Seq<char>, rest: Seq<u8>)
    requires
        c <= '\u{7f}',
    ensures
        byte_len(seq![c]) == 1,
        byte_len(seq![c] + text) == 1 + byte_len(text),
        has_at(encode_utf8(seq![c] + text) + rest, 0, c as u8),
        (encode_utf8(seq![c] + text) + rest).skip(1) == encode_utf8(text) + rest,
{
    let whole = seq![c] + text;
    lemma_first_char_of_text(whole, rest);
    lemma_first_char_ascii(encode_utf8(whole) + rest);
    assert(whole.drop_first() == text);
    lemma_encode_concat(seq![c], text);
    lemma_first_char_width(encode_utf8(whole) + rest);
}

/// A name could belong to a malformed identifier.
proof fn lemma_name_trails(name: Seq<char>, leading: spec_fn(char) -> bool, more: Seq<char>)
    requires
        is_name(name, leading),
        is_alphabetic(name[0]),
        forall|i: int| 0 <= i < more.len() ==> is_malformed_char(#[trigger] more[i]),
    ensures
        forall|i: int|
            0 <= i < (name + seq!['.'] + more).len() ==> is_malformed_char(
                #[trigger] (name + seq!['.'] + more)[i],
            ),
{
}

/// A dot with no lowercase name behind it is a stray dot, right behind the dot.
pub proof fn law_reports_stray_dot(more: Seq<char>, rest: Seq<u8>, state: StateView)
    requires
        state.bytes == encode_utf8(seq!['.'] + more) + rest,
        trails_off(more, rest),
        !starts_with(encode_utf8(more) + rest, lowercase()),
    ensures
        is_reported(
            state,
            seq!['.'],
            more,
            BadIdent::StrayDot(state.line, column_behind(state, 1)),
        ),
{
    lemma_kept_columns(state, 1);
    lemma_encode_ascii('.', more, rest);
    lemma_reported(
        state,
        seq!['.'],
        more,
        rest,
        BadIdent::StrayDot(state.line, column_behind(state, 1)),
    );
}

/// An accessor function with a dot behind it is a weird accessor, where it starts.
pub proof fn law_reports_weird_accessor(
    name: Seq<char>,
    more: Seq<char>,
    rest: Seq<u8>,
    state: StateView,
)
    requires
        is_name(name, lowercase()),
        state.bytes == encode_utf8(seq!['.'] + (name + seq!['.'] + more)) + rest,
        trails_off(more, rest),
    ensures
        is_reported(
            state,
            seq!['.'],
            name + seq!['.'] + more,
            BadIdent::WeirdAccessor(state.line, state.column),
        ),
{
    let tail = name + seq!['.'] + more;
    let after = encode_utf8(seq!['.'] + more) + rest;
    lemma_encode_ascii('.', tail, rest);
    lemma_encode_ascii('.', more, rest);
    assert(tail == name + (seq!['.'] + more));
    lemma_encode_concat(name, seq!['.'] + more);
    assert(state.bytes.skip(1) == encode_utf8(name) + after);
    lemma_first_char_ascii(after);
    lemma_part_of_name(name, after, lowercase());
    assert(has_at(state.bytes.skip(1), byte_len(name), DOT));
    lemma_name_trails(name, lowercase(), more);
    lemma_reported(
        state,
        seq!['.'],
        tail,
        rest,
        BadIdent::WeirdAccessor(state.line, state.column),
    );
}

/// An `@` with no uppercase name behind it is a bad private tag, right behind the `@`.
pub proof fn law_reports_private_tag_without_name(more: Seq<char>, rest: Seq<u8>, state: StateView)
    requires
        state.bytes == encode_utf8(seq!['@'] + more) + rest,
        trails_off(more, rest),
        !starts_with(encode_utf8(more) + rest, uppercase()),
    ensures
        is_reported(
            state,
            seq!['@'],
            more,
            BadIdent::BadPrivateTag(state.line, column_behind(state, 1)),
        ),
{
    lemma_kept_columns(state, 1);
    lemma_encode_ascii('@', more, rest);
    lemma_reported(
        state,
        seq!['@'],
        more,
        rest,
        BadIdent::BadPrivateTag(state.line, column_behind(state, 1)),
    );
}

/// A private tag with a dot behind it is a bad one, where the dot stands.
pub proof fn law_reports_private_tag_with_dot(
    name: Seq<char>,
    more: Seq<char>,
    rest: Seq<u8>,
    state: StateView,
)
    requires
        is_name(name, uppercase()),
        state.bytes == encode_utf8(seq!['@'] + (name + seq!['.'] + more)) + rest,
        trails_off(more, rest),
    ensures
        is_reported(
            state,
            seq!['@'],
            name + seq!['.'] + more,
            BadIdent::BadPrivateTag(state.line, column_behind(state, 1 + byte_len(name))),
        ),
{
    reveal(low16);
    let tail = name + seq!['.'] + more;
    let after = encode_utf8(seq!['.'] + more) + rest;
    lemma_encode_ascii('@', tail, rest);
    lemma_encode_ascii('.', more, rest);
    assert(tail == name + (seq!['.'] + more));
    lemma_encode_concat(name, seq!['.'] + more);
    assert(state.bytes.skip(1) == encode_utf8(name) + after);
    lemma_first_char_ascii(after);
    lemma_part_of_name(name, after, uppercase());
    assert(has_at(state.bytes.skip(1), byte_len(name), DOT));
    assert(has_at(state.bytes, 1 + byte_len(name), DOT));
    lemma_name_trails(name, uppercase(), more);
    lemma_reported(
        state,
        seq!['@'],
        tail,
        rest,
        BadIdent::BadPrivateTag(state.line, column_behind(state, 1 + byte_len(name))),
    );
}

/// An underscore behind a name is reported as one, right behind the underscore.
pub proof fn law_reports_underscore(
    name: Seq<char>,
    more: Seq<char>,
    rest: Seq<u8>,
    state: StateView,
)
    requires
        is_name(name, alphabetic()),
        byte_len(name) + 1 <= u16::MAX,
        state.bytes == encode_utf8(name + seq!['_'] + more) + rest,
        trails_off(more, rest),
    ensures
        is_reported(
            state,
            name + seq!['_'],
            more,
            BadIdent::Underscore(state.line, column_behind(state, byte_len(name) + 1)),
        ),
{
    lemma_kept_columns(state, byte_len(name) + 1);
    let after = encode_utf8(seq!['_'] + more) + rest;
    lemma_encode_ascii('_', more, rest);
    lemma_encode_concat(name, seq!['_']);
    assert(name + seq!['_'] + more == name + (seq!['_'] + more));
    lemma_encode_concat(name, seq!['_'] + more);
    assert(state.bytes == encode_utf8(name) + after);
    lemma_first_char_ascii(after);
    lemma_part_of_name(name, after, alphabetic());
    lemma_starts_alphabetic(name, after);
    assert(has_at(state.bytes, byte_len(name), UNDERSCORE));
    lemma_reported(
        state,
        name + seq!['_'],
        more,
        rest,
        BadIdent::Underscore(state.line, column_behind(state, byte_len(name) + 1)),
    );
}

/// A dot with no lowercase name behind it, behind a name that does not start uppercase and any
/// lowercase names behind dots, is a weird access, right behind the dot.
pub proof fn law_reports_weird_dot_access(
    parts: Seq<Seq<char>>,
    more: Seq<char>,
    rest: Seq<u8>,
    state: StateView,
)
    requires
        parts.len() > 0,
        is_name(parts[0], alphabetic()),
        !is_uppercase(parts[0][0]),
        are_names(parts.drop_first(), lowercase()),
        byte_len(joined(parts)) + 1 <= u16::MAX,
        state.bytes == encode_utf8(joined(parts) + seq!['.'] + more) + rest,
        trails_off(more, rest),
        !starts_with(encode_utf8(more) + rest, lowercase()),
    ensures
        is_reported(
            state,
            joined(parts) + seq!['.'],
            more,
            BadIdent::WeirdDotAccess(state.line, column_behind(state, byte_len(joined(parts)) + 1)),
        ),
{
    lemma_kept_columns(state, byte_len(joined(parts)) + 1);
    lemma_low16_small(byte_len(dots(parts.drop_first())) + 1);
    let first = parts[0];
    let tail = parts.drop_first();
    let dot = encode_utf8(seq!['.'] + more) + rest;
    let after = encode_utf8(dots(tail)) + dot;
    lemma_encode_ascii('.', more, rest);
    lemma_first_char_ascii(dot);
    lemma_encode_concat(joined(parts), seq!['.']);
    assert(joined(parts) + seq!['.'] + more == joined(parts) + (seq!['.'] + more));
    lemma_encode_concat(joined(parts), seq!['.'] + more);
    lemma_encode_concat(first, dots(tail));
    assert(state.bytes == encode_utf8(first) + after);
    lemma_dots_stop(tail, dot);
    lemma_part_of_name(first, after, alphabetic());
    lemma_starts_alphabetic(first, after);
    encode_utf8_decode_utf8(first);
    lemma_access_chain_of_text(tail, dot);
    if tail.len() == 0 {
        assert(after == dot);
    } else {
        lemma_dots_front(tail, dot);
    }
    assert(has_at(state.bytes, byte_len(first), DOT));
    lemma_reported(
        state,
        joined(parts) + seq!['.'],
        more,
        rest,
        BadIdent::WeirdDotAccess(state.line, column_behind(state, byte_len(joined(parts)) + 1)),
    );
}

/// A width that fits 16 bits is kept, and so is the column behind it but for wrapping around.
proof fn lemma_kept_columns(state: StateView, width: int)
    requires
        0 <= width <= u16::MAX,
    ensures
        low16(width) == width,
        low16(width + state.column) == column_behind(state, width),
{
    reveal(low16);
}

/// What is wrong with a dot behind uppercase names and the fields behind them.
proof fn lemma_qualified_problem(modules: Seq<Seq<char>>, after: Seq<u8>, row: Row, col: Col)
    requires
        modules.len() > 0,
        are_names(modules, uppercase()),
        byte_len(dots(modules.drop_first())) <= u16::MAX,
        has_at(after, 0, DOT),
        !starts_with(after.skip(1), uppercase()),
        access_chain(after).stray_dot,
        access_chain(after).width + 1 <= u16::MAX,
    ensures
        ({
            let stop = byte_len(joined(modules)) + access_chain(after).width + 1;
            identifier_chain(encode_utf8(joined(modules)) + after, row, col) == Err::<
                (u16, IdentView),
                _,
            >(
                if access_chain(after).width == 0 {
                    (low16(stop), BadIdent::WeirdDotQualified(row, low16(stop + col)))
                } else {
                    (low16(stop), BadIdent::WeirdDotAccess(row, low16(stop + col)))
                },
            )
        }),
{
    let bytes = encode_utf8(joined(modules)) + after;
    let first = byte_len(modules[0]);
    lemma_first_char_ascii(after);
    lemma_modules_front(modules, after);
    assert(is_name(modules[0], uppercase()));
    lemma_low16_small(byte_len(dots(modules.drop_first())));
    lemma_access_chain(after);
    lemma_low16_small(access_chain(after).width + 1);
    assert(identifier_chain(bytes, row, col) == dotted(bytes, first, true, row, col));
}

/// A dot with no lowercase name behind it, behind uppercase names and at least one lowercase name
/// with dots between them, is a weird access, right behind the dot.
pub proof fn law_reports_weird_dot_qualified_access(
    modules: Seq<Seq<char>>,
    parts: Seq<Seq<char>>,
    more: Seq<char>,
    rest: Seq<u8>,
    state: StateView,
)
    requires
        modules.len() > 0,
        are_names(modules, uppercase()),
        parts.len() > 0,
        are_names(parts, lowercase()),
        byte_len(joined(modules) + dots(parts)) + 1 <= u16::MAX,
        state.bytes == encode_utf8(joined(modules) + dots(parts) + seq!['.'] + more) + rest,
        trails_off(more, rest),
        !starts_with(encode_utf8(more) + rest, lowercase()),
    ensures
        is_reported(
            state,
            joined(modules) + dots(parts) + seq!['.'],
            more,
            BadIdent::WeirdDotAccess(
                state.line,
                column_behind(state, byte_len(joined(modules) + dots(parts)) + 1),
            ),
        ),
{
    let text = joined(modules) + dots(parts);
    let dot = encode_utf8(seq!['.'] + more) + rest;
    let names = encode_utf8(dots(parts)) + dot;
    lemma_encode_ascii('.', more, rest);
    lemma_first_char_ascii(dot);
    lemma_encode_concat(joined(modules), dots(parts));
    lemma_encode_concat(text, seq!['.']);
    assert(text + seq!['.'] + more == text + (seq!['.'] + more));
    lemma_encode_concat(text, seq!['.'] + more);
    assert(state.bytes == encode_utf8(joined(modules)) + names);
    lemma_dots_front(parts, dot);
    assert(is_name(parts[0], lowercase()));
    lemma_first_char_of_text(parts[0], encode_utf8(dots(parts.drop_first())) + dot);
    lemma_access_chain_of_text(parts, dot);
    lemma_encode_concat(modules[0], dots(modules.drop_first()));
    lemma_qualified_problem(modules, names, state.line, state.column);
    lemma_kept_columns(state, byte_len(text) + 1);
    lemma_reported(
        state,
        text + seq!['.'],
        more,
        rest,
        BadIdent::WeirdDotAccess(state.line, column_behind(state, byte_len(text) + 1)),
    );
}

/// A dot with a name of neither case behind it, or none, behind uppercase names with dots between
/// them, is a weird qualification, right behind the dot.
pub proof fn law_reports_weird_dot_qualified(
    modules: Seq<Seq<char>>,
    more: Seq<char>,
    rest: Seq<u8>,
    state: StateView,
)
    requires
        modules.len() > 0,
        are_names(modules, uppercase()),
        byte_len(joined(modules)) + 1 <= u16::MAX,
        state.bytes == encode_utf8(joined(modules) + seq!['.'] + more) + rest,
        trails_off(more, rest),
        !starts_with(encode_utf8(more) + rest, lowercase()),
        !starts_with(encode_utf8(more) + rest, uppercase()),
    ensures
        is_reported(
            state,
            joined(modules) + seq!['.'],
            more,
            BadIdent::WeirdDotQualified(
                state.line,
                column_behind(state, byte_len(joined(modules)) + 1),
            ),
        ),
{
    let text = joined(modules);
    let dot = encode_utf8(seq!['.'] + more) + rest;
    lemma_encode_ascii('.', more, rest);
    lemma_encode_concat(text, seq!['.']);
    assert(text + seq!['.'] + more == text + (seq!['.'] + more));
    lemma_encode_concat(text, seq!['.'] + more);
    assert(state.bytes == encode_utf8(text) + dot);
    lemma_encode_concat(modules[0], dots(modules.drop_first()));
    lemma_qualified_problem(modules, dot, state.line, state.column);
    lemma_kept_columns(state, byte_len(text) + 1);
    lemma_reported(
        state,
        text + seq!['.'],
        more,
        rest,
        BadIdent::WeirdDotQualified(state.line, column_behind(state, byte_len(text) + 1)),
    );
}

/// What is wrong with uppercase names alone.
proof fn lemma_qualified_tag(modules: Seq<Seq<char>>, after: Seq<u8>, row: Row, col: Col)
    requires
        modules.len() > 1,
        are_names(modules, uppercase()),
        byte_len(dots(modules.drop_first())) <= u16::MAX,
        ends_here(after),
    ensures
        ({
            let stop = byte_len(joined(modules));
            identifier_chain(encode_utf8(joined(modules)) + after, row, col) == Err::<
                (u16, IdentView),
                _,
            >((low16(stop), BadIdent::QualifiedTag(row, low16(stop + col))))
        }),
{
    let bytes = encode_utf8(joined(modules)) + after;
    let first = byte_len(modules[0]);
    lemma_modules_front(modules, after);
    assert(is_name(modules[0], uppercase()));
    lemma_low16_small(byte_len(dots(modules.drop_first())));
    assert(access_chain(after).width == 0);
    assert(identifier_chain(bytes, row, col) == dotted(bytes, first, true, row, col));
}

/// Two or more uppercase names with dots between them, and no letter, digit or dot behind them,
/// are a qualified tag, right behind the last name.
pub proof fn law_reports_qualified_tag(
    modules: Seq<Seq<char>>,
    more: Seq<char>,
    rest: Seq<u8>,
    state: StateView,
)
    requires
        modules.len() > 1,
        are_names(modules, uppercase()),
        byte_len(joined(modules)) <= u16::MAX,
        state.bytes == encode_utf8(joined(modules) + more) + rest,
        trails_off(more, rest),
        ends_here(encode_utf8(more) + rest),
    ensures
        is_reported(
            state,
            joined(modules),
            more,
            BadIdent::QualifiedTag(state.line, column_behind(state, byte_len(joined(modules)))),
        ),
{
    let text = joined(modules);
    let after = encode_utf8(more) + rest;
    lemma_encode_concat(text, more);
    assert(state.bytes == encode_utf8(text) + after);
    lemma_encode_concat(modules[0], dots(modules.drop_first()));
    lemma_qualified_tag(modules, after, state.line, state.column);
    lemma_kept_columns(state, byte_len(text));
    assert(is_name(modules[0], uppercase()));
    lemma_first_char_of_text(modules[0], Seq::<u8>::empty());
    lemma_reported(
        state,
        text,
        more,
        rest,
        BadIdent::QualifiedTag(state.line, column_behind(state, byte_len(text))),
    );
}

} // verus!
