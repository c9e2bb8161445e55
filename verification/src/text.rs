//! The text of an identifier, and how its bytes come apart.
use vstd::prelude::*;
use vstd::utf8::{
    char_u32_cast, decode_utf8, encode_scalar, encode_utf8, encode_utf8_decode_utf8,
    encode_utf8_first_scalar, encode_utf8_valid_utf8, length_of_first_scalar, pop_first_scalar,
    valid_utf8,
};
use crate::chars::{first_char, is_alphabetic, lemma_first_char_ascii, lemma_first_char_width};
use crate::grammar::{
    access_chain, byte_len, has_at, is_name_char, last_dot, lemma_module_chain, lemma_part,
    lowercase, module_chain, name_chars, part, run, uppercase, uppercase_part, AT, DOT,
};
use crate::ident::{dotted_len, IdentView};

verus! {

/// Names with a dot in front of each.
pub open spec fn dots(names: Seq<Seq<char>>) -> Seq<char>
    decreases names.len(),
{
    if names.len() == 0 {
        seq![]
    } else {
        seq!['.'] + names[0] + dots(names.drop_first())
    }
}

/// Names with a dot between each two.
pub open spec fn joined(names: Seq<Seq<char>>) -> Seq<char> {
    if names.len() == 0 {
        seq![]
    } else {
        names[0] + dots(names.drop_first())
    }
}

impl IdentView {
    /// The text of an identifier as it stands in the source.
    pub open spec fn text(self) -> Seq<char> {
        match self {
            IdentView::GlobalTag(text) => text,
            IdentView::PrivateTag(text) => text,
            IdentView::Access { module_name, parts } => if module_name.len() == 0 {
                joined(parts)
            } else {
                module_name + dots(parts)
            },
            IdentView::AccessorFunction(name) => seq!['.'] + name,
            IdentView::Malformed(text, _) => text,
        }
    }
}

/// The bytes of two texts in a row are those of the first and then those of the second.
pub proof fn lemma_encode_concat(a: Seq<char>, b: Seq<char>)
    ensures
        encode_utf8(a + b) == encode_utf8(a) + encode_utf8(b),
        byte_len(a + b) == byte_len(a) + byte_len(b),
    decreases a.len(),
{
    if a.len() == 0 {
        assert(a + b == b);
    } else {
        lemma_encode_concat(a.drop_first(), b);
        assert((a + b).drop_first() == a.drop_first() + b);
    }
}

/// A dot takes one byte.
pub proof fn lemma_encode_dot()
    ensures
        encode_utf8(seq!['.']) == seq![DOT],
        byte_len(seq!['.']) == 1,
{
    reveal_with_fuel(encode_utf8, 2);
    assert(0x2eu32 & 0x7f == 0x2e) by (bit_vector);
    assert(seq!['.'].drop_first() == Seq::<char>::empty());
}

/// Where bytes go on makes no difference to the character that they start with.
pub proof fn lemma_first_char_extend(bytes: Seq<u8>, rest: Seq<u8>)
    requires
        first_char(bytes) is Some,
    ensures
        first_char(bytes + rest) == first_char(bytes),
{
    reveal(first_char);
}

/// The bytes of a text start with its first character.
pub proof fn lemma_first_char_of_text(text: Seq<char>, rest: Seq<u8>)
    requires
        text.len() > 0,
    ensures
        first_char(encode_utf8(text) + rest) == Some(
            (text[0], byte_len(text) - byte_len(text.drop_first())),
        ),
        byte_len(text) > byte_len(text.drop_first()),
        (encode_utf8(text) + rest).skip(byte_len(text) - byte_len(text.drop_first()))
            == encode_utf8(text.drop_first()) + rest,
{
    encode_utf8_first_scalar(text);
    assert(first_char(encode_utf8(text)) == Some(
        (text[0], byte_len(text) - byte_len(text.drop_first())),
    )) by {
        reveal(first_char);
        char_u32_cast(text[0], text[0] as u32);
        assert(encode_utf8(text) == encode_scalar(text[0] as u32) + encode_utf8(text.drop_first()));
    }
    lemma_first_char_extend(encode_utf8(text), rest);
    lemma_first_char_width(encode_utf8(text));
}

/// A run goes over a text of its class whole, and then on.
pub proof fn lemma_run_of_text(text: Seq<char>, rest: Seq<u8>, class: spec_fn(char) -> bool)
    requires
        forall|i: int| 0 <= i < text.len() ==> class(#[trigger] text[i]),
    ensures
        run(encode_utf8(text) + rest, class) == byte_len(text) + run(rest, class),
    decreases text.len(),
{
    if text.len() == 0 {
        assert(encode_utf8(text) + rest == rest);
    } else {
        lemma_first_char_of_text(text, rest);
        lemma_run_of_text(text.drop_first(), rest, class);
    }
}

/// A name: its first character is of a given class, and the others are letters and digits.
pub open spec fn is_name(name: Seq<char>, leading: spec_fn(char) -> bool) -> bool {
    &&& name.len() > 0
    &&& leading(name[0])
    &&& forall|i: int| 1 <= i < name.len() ==> is_name_char(#[trigger] name[i])
}

/// Whether `bytes` start with a character of a given class.
pub open spec fn starts_with(bytes: Seq<u8>, class: spec_fn(char) -> bool) -> bool {
    first_char(bytes) matches Some((c, _)) && class(c)
}

/// Whether a name could go on with `bytes`.
pub open spec fn goes_on(bytes: Seq<u8>) -> bool {
    first_char(bytes) matches Some((c, _)) && is_name_char(c)
}

/// A part reads a whole name where it cannot go on behind it.
pub proof fn lemma_part_of_name(name: Seq<char>, rest: Seq<u8>, leading: spec_fn(char) -> bool)
    requires
        is_name(name, leading),
        !goes_on(rest),
    ensures
        part(encode_utf8(name) + rest, leading) == Some(byte_len(name)),
        (encode_utf8(name) + rest).take(byte_len(name)) == encode_utf8(name),
        (encode_utf8(name) + rest).skip(byte_len(name)) == rest,
{
    lemma_first_char_of_text(name, rest);
    lemma_run_of_text(name.drop_first(), rest, name_chars());
}

/// Names take, with their dots, what `dotted_len` counts.
pub proof fn lemma_dots_len(names: Seq<Seq<char>>)
    ensures
        byte_len(dots(names)) == dotted_len(names),
    decreases names.len(),
{
    if names.len() > 0 {
        let rest = names.drop_first();
        lemma_dots_len(rest);
        lemma_dotted_len_front(names);
        lemma_encode_dot();
        lemma_encode_concat(seq!['.'], names[0]);
        lemma_encode_concat(seq!['.'] + names[0], dots(rest));
    }
}

/// What the first of some names takes, and what the others take.
proof fn lemma_dotted_len_front(names: Seq<Seq<char>>)
    requires
        names.len() > 0,
    ensures
        dotted_len(names) == 1 + byte_len(names[0]) + dotted_len(names.drop_first()),
    decreases names.len(),
{
    if names.len() > 1 {
        lemma_dotted_len_front(names.drop_last());
        assert(names.drop_last().drop_first() == names.drop_first().drop_last());
    } else {
        reveal_with_fuel(dotted_len, 2);
        assert(names.drop_last() == Seq::<Seq<char>>::empty());
    }
}

/// Whether all of `names` are names that start with a character of a given class.
pub open spec fn are_names(names: Seq<Seq<char>>, leading: spec_fn(char) -> bool) -> bool {
    forall|i: int| 0 <= i < names.len() ==> is_name(#[trigger] names[i], leading)
}

/// Whether nothing in `bytes` could still belong to an identifier in front of them: no letter,
/// digit or dot comes first.
pub open spec fn ends_here(bytes: Seq<u8>) -> bool {
    !goes_on(bytes) && !has_at(bytes, 0, DOT)
}

/// What the dots in front of names and the names come to as bytes.
pub proof fn lemma_dots_front(names: Seq<Seq<char>>, rest: Seq<u8>)
    requires
        names.len() > 0,
    ensures
        ({
            let bytes = encode_utf8(dots(names)) + rest;
            let after = encode_utf8(dots(names.drop_first())) + rest;
            &&& has_at(bytes, 0, DOT)
            &&& bytes.skip(1) == encode_utf8(names[0]) + after
            &&& bytes.skip(1 + byte_len(names[0])) == after
            &&& byte_len(dots(names)) == 1 + byte_len(names[0]) + byte_len(
                dots(names.drop_first()),
            )
            &&& !goes_on(bytes)
        }),
{
    let tail = dots(names.drop_first());
    let bytes = encode_utf8(dots(names)) + rest;
    lemma_encode_dot();
    lemma_encode_concat(seq!['.'], names[0]);
    lemma_encode_concat(seq!['.'] + names[0], tail);
    assert(bytes.skip(1) == encode_utf8(names[0]) + (encode_utf8(tail) + rest));
    assert(bytes.skip(1 + byte_len(names[0])) == encode_utf8(tail) + rest);
    lemma_first_char_ascii(bytes);
}

/// No name goes on with what names behind dots, or what follows them, start with.
pub proof fn lemma_dots_stop(names: Seq<Seq<char>>, rest: Seq<u8>)
    requires
        !goes_on(rest),
    ensures
        !goes_on(encode_utf8(dots(names)) + rest),
{
    if names.len() > 0 {
        lemma_dots_front(names, rest);
    } else {
        assert(encode_utf8(dots(names)) + rest == rest);
    }
}

/// Lowercase names behind dots are read as an access chain, where no more of them follow.
pub proof fn lemma_access_chain_of_text(names: Seq<Seq<char>>, rest: Seq<u8>)
    requires
        are_names(names, lowercase()),
        !goes_on(rest),
        has_at(rest, 0, DOT) ==> !starts_with(rest.skip(1), lowercase()),
    ensures
        ({
            let chain = access_chain(encode_utf8(dots(names)) + rest);
            &&& chain.names == names
            &&& chain.width == byte_len(dots(names))
            &&& chain.stray_dot == has_at(rest, 0, DOT)
        }),
    decreases names.len(),
{
    let bytes = encode_utf8(dots(names)) + rest;
    if names.len() == 0 {
        assert(bytes == rest);
    } else {
        let tail = names.drop_first();
        let after = encode_utf8(dots(tail)) + rest;
        lemma_dots_front(names, rest);
        lemma_dots_stop(tail, rest);
        assert(is_name(names[0], lowercase()));
        lemma_part_of_name(names[0], after, lowercase());
        assert forall|i: int| 0 <= i < tail.len() implies is_name(
            #[trigger] tail[i],
            lowercase(),
        ) by {
            assert(tail[i] == names[i + 1]);
        }
        lemma_access_chain_of_text(tail, rest);
        let n = byte_len(names[0]);
        assert(bytes.subrange(1, 1 + n) == bytes.skip(1).take(n));
        encode_utf8_decode_utf8(names[0]);
        assert(seq![names[0]] + tail == names);
    }
}

/// Uppercase names behind dots are read as a module chain, where no more of them follow.
pub proof fn lemma_module_chain_of_text(names: Seq<Seq<char>>, rest: Seq<u8>)
    requires
        are_names(names, uppercase()),
        !goes_on(rest),
        has_at(rest, 0, DOT) ==> uppercase_part(rest.skip(1)) is None,
    ensures
        module_chain(encode_utf8(dots(names)) + rest) == byte_len(dots(names)),
    decreases names.len(),
{
    let bytes = encode_utf8(dots(names)) + rest;
    if names.len() == 0 {
        assert(bytes == rest);
    } else {
        let tail = names.drop_first();
        let after = encode_utf8(dots(tail)) + rest;
        lemma_dots_front(names, rest);
        lemma_dots_stop(tail, rest);
        assert(is_name(names[0], uppercase()));
        lemma_part_of_name(names[0], after, uppercase());
        assert forall|i: int| 0 <= i < tail.len() implies is_name(
            #[trigger] tail[i],
            uppercase(),
        ) by {
            assert(tail[i] == names[i + 1]);
        }
        lemma_module_chain_of_text(tail, rest);
    }
}

/// The bytes of a text that starts with a letter start with neither a dot nor an `@`.
pub proof fn lemma_starts_alphabetic(text: Seq<char>, rest: Seq<u8>)
    requires
        text.len() > 0,
        is_alphabetic(text[0]),
    ensures
        !has_at(encode_utf8(text) + rest, 0, DOT),
        !has_at(encode_utf8(text) + rest, 0, AT),
{
    lemma_first_char_of_text(text, rest);
    lemma_first_char_ascii(encode_utf8(text) + rest);
}

/// No byte of a text without dots is a dot.
pub proof fn lemma_no_dot_bytes(bytes: Seq<u8>)
    requires
        valid_utf8(bytes),
        forall|i: int| 0 <= i < decode_utf8(bytes).len() ==> decode_utf8(bytes)[i] != '.',
    ensures
        forall|i: int| 0 <= i < bytes.len() ==> bytes[i] != DOT,
    decreases bytes.len(),
{
    if bytes.len() > 0 {
        let width = length_of_first_scalar(bytes);
        let rest = pop_first_scalar(bytes);
        let text = decode_utf8(bytes);
        lemma_first_char_ascii(bytes);
        assert(first_char(bytes) == Some((text[0], width))) by {
            reveal(first_char);
        }
        assert(text.drop_first() == decode_utf8(rest));
        assert forall|i: int| 0 <= i < decode_utf8(rest).len() implies decode_utf8(rest)[i]
            != '.' by {
            assert(decode_utf8(rest)[i] == text[i + 1]);
        }
        lemma_no_dot_bytes(rest);
        assert forall|i: int| 0 <= i < bytes.len() implies bytes[i] != DOT by {
            if i >= width {
                assert(bytes[i] == rest[i - width]);
            }
        }
    }
}

/// What one more name does to names behind dots.
pub proof fn lemma_dots_push(names: Seq<Seq<char>>, name: Seq<char>)
    ensures
        dots(names.push(name)) == dots(names) + seq!['.'] + name,
    decreases names.len(),
{
    if names.len() == 0 {
        assert(names.push(name).drop_first() == Seq::<Seq<char>>::empty());
        assert(dots(names.push(name).drop_first()) == Seq::<char>::empty());
    } else {
        lemma_dots_push(names.drop_first(), name);
        assert(names.push(name).drop_first() == names.drop_first().push(name));
    }
}

/// The text of a type name and its module.
pub open spec fn concrete_text(module_name: Seq<char>, name: Seq<char>) -> Seq<char> {
    if module_name.len() == 0 {
        name
    } else {
        module_name + seq!['.'] + name
    }
}

/// The last dot is a dot, and none follows it.
pub proof fn lemma_last_dot(bytes: Seq<u8>)
    ensures
        match last_dot(bytes) {
            Some(dot) => {
                &&& has_at(bytes, dot, DOT)
                &&& forall|i: int| dot < i < bytes.len() ==> bytes[i] != DOT
            },
            None => forall|i: int| 0 <= i < bytes.len() ==> bytes[i] != DOT,
        },
    decreases bytes.len(),
{
    if bytes.len() > 0 && bytes.last() != DOT {
        lemma_last_dot(bytes.drop_last());
        assert forall|i: int| 0 <= i < bytes.len() - 1 implies bytes[i]
            == bytes.drop_last()[i] by {}
    }
}

/// A dot with none behind it is the last one.
pub proof fn lemma_last_dot_is(bytes: Seq<u8>, dot: int)
    requires
        has_at(bytes, dot, DOT),
        forall|i: int| dot < i < bytes.len() ==> bytes[i] != DOT,
    ensures
        last_dot(bytes) == Some(dot),
{
    lemma_last_dot(bytes);
    if let Some(other) = last_dot(bytes) {
        if other != dot {
            assert(bytes[other] == DOT);
        }
    }
}

/// Where a first uppercase name and the module chain behind it end.
pub proof fn lemma_modules_of_text(names: Seq<Seq<char>>, rest: Seq<u8>)
    requires
        names.len() > 1,
        are_names(names, uppercase()),
        ends_here(rest),
    ensures
        ({
            let bytes = encode_utf8(joined(names)) + rest;
            let first = byte_len(names[0]);
            let chain = byte_len(dots(names.drop_first()));
            &&& uppercase_part(bytes) == Some(first)
            &&& has_at(bytes, first, DOT)
            &&& module_chain(bytes.skip(first)) == chain
            &&& chain > 0
            &&& byte_len(joined(names)) == first + chain
        }),
{
    let bytes = encode_utf8(joined(names)) + rest;
    let first = names[0];
    let tail = names.drop_first();
    let after = encode_utf8(dots(tail)) + rest;
    assert(is_name(first, uppercase()));
    lemma_encode_concat(first, dots(tail));
    assert(bytes == encode_utf8(first) + after);
    lemma_dots_stop(tail, rest);
    lemma_part_of_name(first, after, uppercase());
    assert forall|i: int| 0 <= i < tail.len() implies is_name(#[trigger] tail[i], uppercase()) by {
        assert(tail[i] == names[i + 1]);
    }
    lemma_module_chain_of_text(tail, rest);
    lemma_dots_front(tail, rest);
}

/// How a text comes apart at the dot in front of its last name.
pub proof fn lemma_last_name(module_name: Seq<char>, name: Seq<char>, rest: Seq<u8>)
    requires
        is_name(name, uppercase()),
    ensures
        ({
            let text = module_name + seq!['.'] + name;
            let bytes = encode_utf8(text) + rest;
            let dot = byte_len(module_name);
            &&& last_dot(bytes.take(byte_len(text))) == Some(dot)
            &&& decode_utf8(bytes.take(dot)) == module_name
            &&& valid_utf8(bytes.subrange(dot + 1, byte_len(text)))
            &&& decode_utf8(bytes.subrange(dot + 1, byte_len(text))) == name
        }),
{
    let text = module_name + seq!['.'] + name;
    let bytes = encode_utf8(text) + rest;
    let dot = byte_len(module_name);
    lemma_encode_dot();
    lemma_encode_concat(module_name, seq!['.']);
    lemma_encode_concat(module_name + seq!['.'], name);
    assert(bytes.take(byte_len(text)) == encode_utf8(text));
    assert(bytes.take(dot) == encode_utf8(module_name));
    assert(bytes.subrange(dot + 1, byte_len(text)) == encode_utf8(name));
    encode_utf8_decode_utf8(module_name);
    encode_utf8_decode_utf8(name);
    encode_utf8_valid_utf8(name);
    lemma_no_dot_bytes(encode_utf8(name));
    assert forall|i: int| dot < i < byte_len(text) implies encode_utf8(text)[i] != DOT by {
        assert(encode_utf8(text)[i] == encode_utf8(name)[i - dot - 1]);
    }
    lemma_last_dot_is(encode_utf8(text), dot);
}

/// A module chain ends where no name goes on.
pub proof fn lemma_module_chain_stops(bytes: Seq<u8>)
    ensures
        module_chain(bytes) > 0 ==> !goes_on(bytes.skip(module_chain(bytes))),
    decreases bytes.len(),
{
    if has_at(bytes, 0, DOT) {
        if let Some(n) = uppercase_part(bytes.skip(1)) {
            let rest = bytes.skip(1 + n);
            lemma_part(bytes.skip(1), uppercase());
            lemma_module_chain(rest);
            lemma_module_chain_stops(rest);
            assert(bytes.skip(1).skip(n) == rest);
            assert(rest.skip(module_chain(rest)) == bytes.skip(module_chain(bytes)));
        }
    }
}

/// What one more name does to names with dots between them.
pub proof fn lemma_joined_push(names: Seq<Seq<char>>, name: Seq<char>)
    requires
        forall|i: int| 0 <= i < names.len() ==> (#[trigger] names[i]).len() > 0,
    ensures
        joined(names.push(name)) == concrete_text(joined(names), name),
        (joined(names).len() == 0) == (names.len() == 0),
{
    if names.len() == 0 {
        assert(names.push(name).drop_first() == Seq::<Seq<char>>::empty());
        assert(name + Seq::<char>::empty() == name);
    } else {
        assert(names[0].len() > 0);
        lemma_dots_push(names.drop_first(), name);
        assert(names.push(name).drop_first() == names.drop_first().push(name));
    }
}

} // verus!
