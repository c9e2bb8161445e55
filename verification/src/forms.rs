//! The forms of identifiers, and that what is read off bytes has them.
use vstd::prelude::*;
use vstd::utf8::{
    decode_utf8, decode_utf8_encode_utf8, encode_utf8, encode_utf8_decode_utf8,
    encode_utf8_valid_utf8, valid_utf8, valid_utf8_concat,
};
use crate::chars::{
    first_char, is_alphabetic, is_uppercase, lemma_first_char_ascii, lemma_first_char_width,
};
use crate::grammar::{
    access_chain, alphabetic, alphabetic_part, byte_len, dotted, has_at, identifier_chain,
    is_malformed_char, lemma_access_chain, lemma_ascii_then_text, lemma_low16_small,
    lemma_module_chain, lemma_module_name, lemma_part, lemma_run, low16, lowercase, lowercase_part,
    malformed_chars, module_chain, name_chars, part, run, uppercase, uppercase_part, AT, DOT,
    UNDERSCORE,
};
use crate::ident::{BadIdent, IdentView};
use crate::parser::{Col, Row};
use crate::state::StateView;
use crate::text::{
    are_names, dots, ends_here, goes_on, is_name, joined, lemma_encode_concat, lemma_encode_dot,
    lemma_no_dot_bytes,
};

verus! {

/// Whether `text` is uppercase names behind dots.
pub open spec fn is_module_tail(text: Seq<char>) -> bool {
    exists|names: Seq<Seq<char>>| are_names(names, uppercase()) && text == #[trigger] dots(names)
}

/// Whether `text` is uppercase names with dots between them.
pub open spec fn is_module_name(text: Seq<char>) -> bool {
    exists|names: Seq<Seq<char>>|
        names.len() > 0 && are_names(names, uppercase()) && text == #[trigger] joined(names)
}

/// The forms that identifiers have:
///
/// * a global tag is a name that starts uppercase;
/// * a private tag is `@` and such a name;
/// * an accessor function is a name that starts lowercase;
/// * an access is one name that does not start uppercase, or a module name, and then lowercase
///   names.
///
/// A malformed identifier has none of them.
pub open spec fn is_well_formed(ident: IdentView) -> bool {
    match ident {
        IdentView::GlobalTag(name) => is_name(name, uppercase()),
        IdentView::PrivateTag(tag) => {
            tag.len() > 0 && tag[0] == '@' && is_name(tag.drop_first(), uppercase())
        },
        IdentView::Access { module_name, parts } => if module_name.len() == 0 {
            &&& parts.len() > 0
            &&& is_name(parts[0], alphabetic())
            &&& !is_uppercase(parts[0][0])
            &&& are_names(parts.drop_first(), lowercase())
        } else {
            is_module_name(module_name) && parts.len() > 0 && are_names(parts, lowercase())
        },
        IdentView::AccessorFunction(name) => is_name(name, lowercase()),
        IdentView::Malformed(_, _) => false,
    }
}

/// What is claimed of an identifier that was read off `bytes`: it has one of the forms, the
/// bytes start with its text, and it ends where it cannot go on.
pub open spec fn is_read_off(bytes: Seq<u8>, width: u16, ident: IdentView) -> bool {
    let len = byte_len(ident.text());
    &&& is_well_formed(ident)
    &&& 0 < len <= bytes.len()
    &&& bytes.take(len) == encode_utf8(ident.text())
    &&& width == low16(len)
    &&& ends_here(bytes.skip(len))
}

/// Whether `bytes` start like an identifier: with a dot, an `@` or a letter.
pub open spec fn starts_like_identifier(bytes: Seq<u8>) -> bool {
    first_char(bytes) matches Some((c, _)) && (c == '.' || c == '@' || is_alphabetic(c))
}

/// The number of bytes, the first character included, that could belong to an identifier at the
/// start of `bytes`.
pub open spec fn extent(bytes: Seq<u8>) -> int {
    match first_char(bytes) {
        Some((_, width)) => width + run(bytes.skip(width), malformed_chars()),
        None => 0,
    }
}

/// A run goes over any run of fewer characters, and then on.
pub proof fn lemma_run_goes_on(
    bytes: Seq<u8>,
    fewer: spec_fn(char) -> bool,
    class: spec_fn(char) -> bool,
)
    requires
        forall|c: char| #[trigger] fewer(c) ==> class(c),
    ensures
        run(bytes, class) == run(bytes, fewer) + run(bytes.skip(run(bytes, fewer)), class),
    decreases bytes.len(),
{
    lemma_run(bytes, fewer);
    lemma_first_char_width(bytes);
    match first_char(bytes) {
        Some((c, width)) => if fewer(c) {
            let rest = bytes.skip(width);
            lemma_run_goes_on(rest, fewer, class);
            lemma_run(rest, fewer);
            assert(rest.skip(run(rest, fewer)) == bytes.skip(run(bytes, fewer)));
        } else {
            assert(bytes.skip(0) == bytes);
        },
        None => {
            assert(bytes.skip(0) == bytes);
        },
    }
}

/// What could belong to an identifier goes over its first name, and then on.
pub proof fn lemma_extent_over_part(bytes: Seq<u8>, leading: spec_fn(char) -> bool)
    ensures
        part(bytes, leading) matches Some(n) ==> extent(bytes) == n + run(
            bytes.skip(n),
            malformed_chars(),
        ),
{
    lemma_first_char_width(bytes);
    if let Some((c, width)) = first_char(bytes) {
        let rest = bytes.skip(width);
        lemma_run(rest, name_chars());
        lemma_run_goes_on(rest, name_chars(), malformed_chars());
        assert(rest.skip(run(rest, name_chars())) == bytes.skip(
            width + run(rest, name_chars()),
        ));
    }
}

/// What could belong to an identifier goes over a dot and the name behind it, and then on.
pub proof fn lemma_run_over_dot(bytes: Seq<u8>, leading: spec_fn(char) -> bool)
    requires
        has_at(bytes, 0, DOT),
        forall|c: char| #[trigger] leading(c) ==> is_malformed_char(c),
    ensures
        run(bytes, malformed_chars()) == 1 + run(bytes.skip(1), malformed_chars()),
        part(bytes.skip(1), leading) matches Some(n) ==> run(bytes, malformed_chars()) == 1 + n + run(
            bytes.skip(1 + n),
            malformed_chars(),
        ),
{
    lemma_first_char_ascii(bytes);
    lemma_extent_over_part(bytes.skip(1), leading);
    lemma_part(bytes.skip(1), leading);
    if let Some(n) = part(bytes.skip(1), leading) {
        assert(bytes.skip(1).skip(n) == bytes.skip(1 + n));
        assert(extent(bytes.skip(1)) == run(bytes.skip(1), malformed_chars()));
    }
}

/// What could belong to an identifier goes over a module chain, and then on.
pub proof fn lemma_run_over_modules(bytes: Seq<u8>)
    ensures
        run(bytes, malformed_chars()) == module_chain(bytes) + run(
            bytes.skip(module_chain(bytes)),
            malformed_chars(),
        ),
    decreases bytes.len(),
{
    assert(bytes.skip(0) == bytes);
    if has_at(bytes, 0, DOT) {
        lemma_run_over_dot(bytes, uppercase());
        lemma_part(bytes.skip(1), uppercase());
        if let Some(n) = uppercase_part(bytes.skip(1)) {
            let rest = bytes.skip(1 + n);
            lemma_run_over_modules(rest);
            lemma_module_chain(rest);
            assert(rest.skip(module_chain(rest)) == bytes.skip(module_chain(bytes)));
        }
    }
}

/// What could belong to an identifier goes over an access chain, and then on.
pub proof fn lemma_run_over_access(bytes: Seq<u8>)
    ensures
        run(bytes, malformed_chars()) == access_chain(bytes).width + run(
            bytes.skip(access_chain(bytes).width),
            malformed_chars(),
        ),
    decreases bytes.len(),
{
    assert(bytes.skip(0) == bytes);
    if has_at(bytes, 0, DOT) {
        lemma_run_over_dot(bytes, lowercase());
        lemma_part(bytes.skip(1), lowercase());
        if let Some(n) = lowercase_part(bytes.skip(1)) {
            let rest = bytes.skip(1 + n);
            lemma_run_over_access(rest);
            lemma_access_chain(rest);
            assert(rest.skip(access_chain(rest).width) == bytes.skip(access_chain(bytes).width));
        }
    }
}

/// What an access chain holds is lowercase names, their bytes are those it takes, and it ends
/// where it cannot go on.
pub proof fn lemma_access_chain_text(bytes: Seq<u8>)
    ensures
        ({
            let chain = access_chain(bytes);
            &&& are_names(chain.names, lowercase())
            &&& bytes.take(chain.width) == encode_utf8(dots(chain.names))
            &&& chain.width > 0 ==> !goes_on(bytes.skip(chain.width))
            &&& chain.stray_dot == has_at(bytes, chain.width, DOT)
            &&& chain.width > 0 ==> chain.names.len() > 0
        }),
    decreases bytes.len(),
{
    let chain = access_chain(bytes);
    lemma_access_chain(bytes);
    if has_at(bytes, 0, DOT) && lowercase_part(bytes.skip(1)) is Some {
        let n = lowercase_part(bytes.skip(1))->0;
        let here = bytes.skip(1).take(n);
        let name = decode_utf8(here);
        let rest = bytes.skip(1 + n);
        lemma_part(bytes.skip(1), lowercase());
        decode_utf8_encode_utf8(here);
        lemma_access_chain_text(rest);
        lemma_access_chain(rest);
        assert(bytes.subrange(1, 1 + n) == here);
        assert(chain.names == seq![name] + access_chain(rest).names);
        assert(chain.names.drop_first() == access_chain(rest).names);
        assert forall|i: int| 0 <= i < chain.names.len() implies is_name(
            #[trigger] chain.names[i],
            lowercase(),
        ) by {
            if i > 0 {
                assert(chain.names[i] == access_chain(rest).names[i - 1]);
            }
        }
        lemma_encode_dot();
        lemma_encode_concat(seq!['.'], name);
        lemma_encode_concat(seq!['.'] + name, dots(access_chain(rest).names));
        assert(bytes.take(chain.width) == seq![DOT] + here + rest.take(access_chain(rest).width));
        assert(bytes.skip(chain.width) == rest.skip(access_chain(rest).width));
        assert(bytes.skip(1).skip(n) == rest);
    } else {
        assert(bytes.take(0) == encode_utf8(dots(chain.names)));
    }
}

/// A module chain is uppercase names behind dots, and so is what comes before any dot in it.
pub proof fn lemma_module_chain_text(bytes: Seq<u8>, end: int)
    requires
        0 <= end <= module_chain(bytes),
        end == module_chain(bytes) || has_at(bytes, end, DOT),
    ensures
        valid_utf8(bytes.take(end)),
        is_module_tail(decode_utf8(bytes.take(end))),
    decreases bytes.len(),
{
    lemma_module_chain(bytes);
    if end == 0 {
        let none: Seq<Seq<char>> = seq![];
        assert(decode_utf8(bytes.take(0)) == dots(none));
    } else {
        let n = uppercase_part(bytes.skip(1))->0;
        let here = bytes.skip(1).take(n);
        let name = decode_utf8(here);
        let rest = bytes.skip(1 + n);
        lemma_part(bytes.skip(1), uppercase());
        assert(is_name(name, uppercase()));
        lemma_no_dot_bytes(here);
        lemma_module_chain(rest);
        if end < 1 + n {
            assert(bytes[end] == here[end - 1]);
        }
        lemma_module_chain_text(rest, end - 1 - n);
        let tail = choose|tail: Seq<Seq<char>>|
            are_names(tail, uppercase()) && decode_utf8(rest.take(end - 1 - n)) == #[trigger] dots(
                tail,
            );
        let names = seq![name] + tail;
        assert(names.drop_first() == tail);
        assert forall|i: int| 0 <= i < names.len() implies is_name(
            #[trigger] names[i],
            uppercase(),
        ) by {
            if i > 0 {
                assert(names[i] == tail[i - 1]);
            }
        }
        decode_utf8_encode_utf8(here);
        decode_utf8_encode_utf8(rest.take(end - 1 - n));
        lemma_encode_dot();
        lemma_encode_concat(seq!['.'], name);
        lemma_encode_concat(seq!['.'] + name, dots(tail));
        assert(bytes.take(end) == seq![DOT] + here + rest.take(end - 1 - n));
        encode_utf8_decode_utf8(dots(names));
        encode_utf8_valid_utf8(dots(names));
    }
}

/// A first name and what an access chain holds behind the module names.
pub proof fn lemma_dotted_text(bytes: Seq<u8>, end: int, upper: bool, row: Row, col: Col)
    requires
        alphabetic_part(bytes) == Some(end),
        upper == is_uppercase(decode_utf8(bytes.take(end))[0]),
        has_at(bytes, end, DOT),
    ensures
        dotted(bytes, end, upper, row, col) matches Ok((width, ident)) ==> is_read_off(
            bytes,
            width,
            ident,
        ),
{
    lemma_part(bytes, alphabetic());
    let first = decode_utf8(bytes.take(end));
    decode_utf8_encode_utf8(bytes.take(end));
    let modules = module_chain(bytes.skip(end));
    lemma_module_chain(bytes.skip(end));
    lemma_low16_small(modules);
    let module_end = end + if upper {
        low16(modules)
    } else {
        0
    };
    let after = bytes.skip(module_end);
    let chain = access_chain(after);
    lemma_access_chain(after);
    lemma_access_chain_text(after);
    if chain.width > 0 && !chain.stray_dot {
        let len = module_end + chain.width;
        assert(bytes.take(len) == bytes.take(module_end) + after.take(chain.width));
        assert(bytes.skip(len) == after.skip(chain.width));
        assert(has_at(bytes, module_end, DOT));
        if upper {
            let k = low16(modules) as int;
            let tail_bytes = bytes.skip(end).take(k);
            assert(has_at(bytes.skip(end), k, DOT));
            lemma_module_chain_text(bytes.skip(end), k);
            let tail = choose|tail: Seq<Seq<char>>|
                are_names(tail, uppercase()) && decode_utf8(tail_bytes) == #[trigger] dots(tail);
            decode_utf8_encode_utf8(tail_bytes);
            let names = seq![first] + tail;
            assert(names.drop_first() == tail);
            assert(is_name(first, uppercase()));
            assert forall|i: int| 0 <= i < names.len() implies is_name(
                #[trigger] names[i],
                uppercase(),
            ) by {
                if i > 0 {
                    assert(names[i] == tail[i - 1]);
                }
            }
            lemma_encode_concat(first, dots(tail));
            assert(bytes.take(module_end) == bytes.take(end) + tail_bytes);
            encode_utf8_decode_utf8(joined(names));
            assert(decode_utf8(bytes.take(module_end)) == joined(names));
            lemma_encode_concat(joined(names), dots(chain.names));
            assert(Seq::<Seq<char>>::empty() + chain.names == chain.names);
        } else {
            let parts = seq![first] + chain.names;
            assert(parts.drop_first() == chain.names);
            lemma_encode_concat(first, dots(chain.names));
        }
    }
}

/// Whatever identifier comes out of a chain of bytes was read off them.
pub proof fn lemma_chain_text(bytes: Seq<u8>, row: Row, col: Col)
    ensures
        identifier_chain(bytes, row, col) matches Ok((width, ident)) ==> is_read_off(
            bytes,
            width,
            ident,
        ),
{
    if has_at(bytes, 0, DOT) {
        lemma_part(bytes.skip(1), lowercase());
        if let Some(n) = lowercase_part(bytes.skip(1)) {
            let here = bytes.skip(1).take(n);
            let name = decode_utf8(here);
            decode_utf8_encode_utf8(here);
            lemma_encode_dot();
            lemma_encode_concat(seq!['.'], name);
            assert(bytes.take(1 + n) == seq![DOT] + here);
            assert(bytes.skip(1).skip(n) == bytes.skip(1 + n));
        }
    } else if has_at(bytes, 0, AT) {
        lemma_part(bytes.skip(1), uppercase());
        if let Some(n) = uppercase_part(bytes.skip(1)) {
            let tag = decode_utf8(bytes.take(1 + n));
            lemma_ascii_then_text(bytes, 1 + n);
            decode_utf8_encode_utf8(bytes.take(1 + n));
            assert(tag.drop_first() == decode_utf8(bytes.skip(1).take(n)));
            assert(bytes.skip(1).skip(n) == bytes.skip(1 + n));
        }
    } else if let Some(end) = alphabetic_part(bytes) {
        lemma_part(bytes, alphabetic());
        let name = decode_utf8(bytes.take(end));
        decode_utf8_encode_utf8(bytes.take(end));
        if has_at(bytes, end, DOT) {
            lemma_dotted_text(bytes, end, is_uppercase(name[0]), row, col);
        } else {
            assert(seq![name].drop_first() == Seq::<Seq<char>>::empty());
            assert(name + Seq::<char>::empty() == name);
        }
    }
}

/// What a malformed identifier takes.
pub proof fn lemma_malformed_text(state: StateView, delta: int)
    requires
        0 <= delta <= state.bytes.len(),
    ensures
        ({
            let rest = state.bytes.skip(delta);
            let chomped = run(rest, malformed_chars());
            let text = state.bytes.take(delta + chomped);
            &&& 0 <= chomped <= rest.len()
            &&& state.bytes == text + state.bytes.skip(delta + chomped)
            &&& rest.skip(chomped) == state.bytes.skip(delta + chomped)
            &&& valid_utf8(text) ==> encode_utf8(decode_utf8(text)) == text && byte_len(
                decode_utf8(text),
            ) == delta + chomped
            &&& first_char(rest.skip(chomped)) matches Some((c, _)) ==> !is_malformed_char(c)
        }),
{
    let rest = state.bytes.skip(delta);
    let chomped = run(rest, malformed_chars());
    lemma_run(rest, malformed_chars());
    let text = state.bytes.take(delta + chomped);
    assert(state.bytes == text + state.bytes.skip(delta + chomped));
    assert(rest.skip(chomped) == state.bytes.skip(delta + chomped));
    if valid_utf8(text) {
        decode_utf8_encode_utf8(text);
    }
}

/// Whole characters with an ASCII character behind them are whole characters.
pub proof fn lemma_text_then_ascii(bytes: Seq<u8>, n: int)
    requires
        0 <= n < bytes.len(),
        valid_utf8(bytes.take(n)),
        bytes[n] <= 0x7f,
    ensures
        valid_utf8(bytes.take(n + 1)),
{
    let rest = bytes.skip(n);
    assert(rest.skip(1).take(0) == Seq::<u8>::empty());
    lemma_ascii_then_text(rest, 1);
    valid_utf8_concat(bytes.take(n), rest.take(1));
    assert(bytes.take(n + 1) == bytes.take(n) + rest.take(1));
}

/// The bytes that an identifier takes, or that are read before it goes wrong, are some of
/// those that could belong to it.
pub open spec fn stays_within(
    bytes: Seq<u8>,
    result: Result<(u16, IdentView), (u16, BadIdent)>,
) -> bool {
    match result {
        Ok((width, _)) => width <= extent(bytes),
        Err((width, _)) => {
            &&& 0 < width <= bytes.len()
            &&& valid_utf8(bytes.take(width as int))
            &&& width + run(bytes.skip(width as int), malformed_chars()) == extent(bytes)
        },
    }
}

/// Behind a first name and a dot, nothing is read that could not belong to the identifier.
#[verifier::rlimit(30)]
pub proof fn lemma_dotted_within(bytes: Seq<u8>, end: int, upper: bool, row: Row, col: Col)
    requires
        alphabetic_part(bytes) == Some(end),
        has_at(bytes, end, DOT),
        extent(bytes) <= u16::MAX,
    ensures
        stays_within(bytes, dotted(bytes, end, upper, row, col)),
{
    lemma_part(bytes, alphabetic());
    lemma_extent_over_part(bytes, alphabetic());
    let modules = module_chain(bytes.skip(end));
    lemma_module_chain(bytes.skip(end));
    lemma_run_over_modules(bytes.skip(end));
    let module_end = end + if upper {
        modules
    } else {
        0
    };
    let after = bytes.skip(module_end);
    let chain = access_chain(after);
    assert(after == bytes.skip(end).skip(module_end - end));
    lemma_run(after, malformed_chars());
    lemma_run_over_access(after);
    lemma_access_chain(after);
    lemma_access_chain_text(after);
    assert(after.skip(chain.width) == bytes.skip(module_end + chain.width));
    lemma_run(after.skip(chain.width), malformed_chars());
    if chain.stray_dot {
        assert(after.skip(chain.width).skip(1) == bytes.skip(module_end + chain.width + 1));
        lemma_run_over_dot(after.skip(chain.width), lowercase());
        lemma_run(after.skip(chain.width).skip(1), malformed_chars());
    }
    if upper {
        lemma_module_name(bytes, end, module_end);
    }
    lemma_low16_small(modules);
    encode_utf8_valid_utf8(dots(chain.names));
    valid_utf8_concat(bytes.take(module_end), after.take(chain.width));
    assert(bytes.take(module_end + chain.width) == bytes.take(module_end) + after.take(
        chain.width,
    ));
    lemma_low16_small(module_end);
    lemma_low16_small(module_end + chain.width);
    lemma_low16_small(module_end + 1);
    lemma_low16_small(module_end + chain.width + 1);
    lemma_low16_small(chain.width + 1);
    lemma_low16_small(0);
    if chain.stray_dot {
        lemma_text_then_ascii(bytes, module_end + chain.width);
    }
}

/// Where 16 bits can count what could belong to an identifier, nothing else is read.
pub proof fn lemma_chain_within(bytes: Seq<u8>, row: Row, col: Col)
    requires
        starts_like_identifier(bytes),
        extent(bytes) <= u16::MAX,
    ensures
        stays_within(bytes, identifier_chain(bytes, row, col)),
{
    lemma_first_char_ascii(bytes);
    lemma_first_char_width(bytes);
    if has_at(bytes, 0, DOT) || has_at(bytes, 0, AT) {
        assert(bytes.skip(1).take(0) == Seq::<u8>::empty());
        lemma_ascii_then_text(bytes, 1);
        lemma_tail_within(bytes, row, col);
    } else if let Some(end) = alphabetic_part(bytes) {
        lemma_part(bytes, alphabetic());
        lemma_extent_over_part(bytes, alphabetic());
        lemma_run(bytes.skip(end), malformed_chars());
        lemma_low16_small(end);
        if has_at(bytes, end, DOT) {
            let upper = is_uppercase(decode_utf8(bytes.take(end))[0]);
            lemma_dotted_within(bytes, end, upper, row, col);
        } else if has_at(bytes, end, UNDERSCORE) {
            lemma_first_char_ascii(bytes.skip(end));
            assert(bytes.skip(end).skip(1) == bytes.skip(end + 1));
            lemma_run(bytes.skip(end + 1), malformed_chars());
            lemma_low16_small(end + 1);
            lemma_text_then_ascii(bytes, end);
        }
    }
}

/// The name of an accessor function or a private tag could belong to it.
pub proof fn lemma_tail_within(bytes: Seq<u8>, row: Row, col: Col)
    requires
        has_at(bytes, 0, DOT) || has_at(bytes, 0, AT),
    ensures
        identifier_chain(bytes, row, col) matches Ok((width, _)) ==> width <= extent(bytes),
        uppercase_part(bytes.skip(1)) matches Some(n) ==> 1 + n <= extent(bytes),
{
    let tail = bytes.skip(1);
    lemma_first_char_ascii(bytes);
    lemma_first_char_width(tail);
    lemma_part(tail, lowercase());
    lemma_part(tail, uppercase());
    lemma_extent_over_part(tail, lowercase());
    lemma_extent_over_part(tail, uppercase());
    if let Some(n) = lowercase_part(tail) {
        lemma_run(tail.skip(n), malformed_chars());
        decode_utf8_encode_utf8(tail.take(n));
        lemma_low16_small(1 + n);
    }
    if let Some(n) = uppercase_part(tail) {
        lemma_run(tail.skip(n), malformed_chars());
        lemma_ascii_then_text(bytes, 1 + n);
        decode_utf8_encode_utf8(bytes.take(1 + n));
        lemma_low16_small(1 + n);
    }
}

} // verus!
