//! Identifiers, and the parsers that read them.
use bumpalo::Bump;
use vstd::prelude::*;
use vstd::slice::slice_subrange;
use vstd::utf8::{decode_utf8, decode_utf8_encode_utf8, valid_utf8};
use crate::arena::{alloc_name, into_slice, list_is_empty, names_in, new_list, push_name, texts};
use crate::chars::{
    char_at_start, char_is_alphabetic, char_is_lowercase, char_is_uppercase, first_char,
    lemma_first_char_ascii, lemma_first_char_width, str_of_bytes,
};
use crate::grammar::{
    access_chain, accessor, alphabetic, alphabetic_part, byte_len, concrete_name, dotted, has_at,
    identifier_chain, last_dot, lemma_access_chain_step, lemma_ascii_then_text, lemma_chain_width,
    lemma_low16_small, lemma_low16_sum, lemma_module_chain, lemma_module_name, lemma_part,
    lemma_run, low16, lowercase_part, malformed_chars, module_chain, name_chars, private_tag, run,
    uppercase, uppercase_part, AT, DOT,
};
use crate::keyword::found_in_keywords;
use crate::outcomes::{
    concrete_type_outcome, lowercase_ident_outcome, malformed_outcome, parse_ident_help_outcome,
    parse_ident_outcome, tag_name_outcome, unqualified_ident_outcome, uppercase_ident_outcome,
};
use crate::parser::{
    outcome, BadInputError, Col, EExpr, Outcome, ParseResult, Parser, Progress, Row,
};
use crate::state::{State, StateView};

verus! {

/// The parser accepts all of these in any position where any one of them could
/// appear. This way, a later stage can give more helpful error messages like
/// "you can't redefine this tag!" for `Foo = ...` or
/// "you can only define unqualified constants" for `Foo.bar = ...`
#[derive(Debug, Clone, Copy, PartialEq, Eq)]
pub enum Ident<'a> {
    /// Foo or Bar
    GlobalTag(&'a str),
    /// @Foo or @Bar
    PrivateTag(&'a str),
    /// foo or foo.bar or Foo.Bar.baz.qux
    Access { module_name: &'a str, parts: &'a [&'a str] },
    /// .foo { foo: 42 }
    AccessorFunction(&'a str),
    /// .Foo or foo. or something like foo.Bar
    Malformed(&'a str, BadIdent),
}

/// What is wrong with an identifier, and where.
#[derive(Debug, Clone, Copy, PartialEq, Eq)]
pub enum BadIdent {
    Start(Row, Col),
    Space(BadInputError, Row, Col),
    Underscore(Row, Col),
    QualifiedTag(Row, Col),
    WeirdAccessor(Row, Col),
    WeirdDotAccess(Row, Col),
    WeirdDotQualified(Row, Col),
    StrayDot(Row, Col),
    BadPrivateTag(Row, Col),
}

/// An identifier by the text that it holds.
#[verifier::ext_equal]
pub enum IdentView {
    GlobalTag(Seq<char>),
    PrivateTag(Seq<char>),
    Access { module_name: Seq<char>, parts: Seq<Seq<char>> },
    AccessorFunction(Seq<char>),
    Malformed(Seq<char>, BadIdent),
}

impl<'a> View for Ident<'a> {
    type V = IdentView;

    open spec fn view(&self) -> IdentView {
        match *self {
            Ident::GlobalTag(name) => IdentView::GlobalTag(name@),
            Ident::PrivateTag(name) => IdentView::PrivateTag(name@),
            Ident::Access { module_name, parts } => IdentView::Access {
                module_name: module_name@,
                parts: texts(parts@),
            },
            Ident::AccessorFunction(name) => IdentView::AccessorFunction(name@),
            Ident::Malformed(text, problem) => IdentView::Malformed(text@, problem),
        }
    }
}

/// The bytes that names take, with one dot each.
pub open spec fn dotted_len(names: Seq<Seq<char>>) -> int
    decreases names.len(),
{
    if names.len() == 0 {
        0
    } else {
        dotted_len(names.drop_last()) + byte_len(names.last()) + 1
    }
}

impl IdentView {
    /// The bytes that the text of an identifier takes, with the dots between its names. The
    /// dot in front of an accessor function does not count.
    pub open spec fn len(self) -> int {
        match self {
            IdentView::GlobalTag(text) => byte_len(text),
            IdentView::PrivateTag(text) => byte_len(text),
            IdentView::Access { module_name, parts } => {
                let module_len = if module_name.len() == 0 {
                    0
                } else {
                    byte_len(module_name) + 1
                };
                module_len + dotted_len(parts) - 1
            },
            IdentView::AccessorFunction(text) => byte_len(text),
            IdentView::Malformed(text, _) => byte_len(text),
        }
    }
}

/// Names take no less with more of them.
proof fn lemma_dotted_len_grows(names: Seq<Seq<char>>, i: int)
    requires
        0 <= i <= names.len(),
    ensures
        0 <= dotted_len(names.take(i)) <= dotted_len(names),
    decreases names.len(),
{
    if i < names.len() {
        lemma_dotted_len_grows(names.drop_last(), i);
        assert(names.drop_last().take(i) == names.take(i));
    } else {
        assert(names.take(i) == names);
        if i > 0 {
            lemma_dotted_len_grows(names.drop_last(), i - 1);
        }
    }
}

/// The number of bytes in a string.
fn width_of(text: &str) -> (width: usize)
    ensures
        width == byte_len(text@),
{
    text.as_bytes().len()
}

impl<'a> Ident<'a> {
    /// The length in bytes of the identifier. An access has at least one name, and its length
    /// with one more dot fits `usize`.
    pub fn len(&self) -> (len: usize)
        requires
            self is Access ==> 0 <= self@.len() < usize::MAX,
        ensures
            len == self@.len(),
    {
        match *self {
            Ident::GlobalTag(string) => width_of(string),
            Ident::PrivateTag(string) => width_of(string),
            Ident::Access { module_name, parts } => {
                let ghost names = texts(parts@);
                proof {
                    lemma_dotted_len_grows(names, 0);
                }
                let mut len: usize = if module_name.is_empty() {
                    0
                } else {
                    width_of(module_name) + 1
                };
                let ghost module_len = len as int;
                let mut i: usize = 0;
                assert(names.take(0) == Seq::<Seq<char>>::empty());
                while i < parts.len()
                    invariant
                        i <= parts@.len(),
                        names == texts(parts@),
                        len == module_len + dotted_len(names.take(i as int)),
                        module_len + dotted_len(names) <= usize::MAX,
                    decreases parts@.len() - i,
                {
                    proof {
                        lemma_dotted_len_grows(names, i + 1);
                        assert(names.take(i + 1).drop_last() == names.take(i as int));
                    }
                    len = len + (width_of(parts[i]) + 1);  // +1 for the dot
                    i = i + 1;
                }
                assert(names.take(i as int) == names);
                len - 1
            },
            Ident::AccessorFunction(string) => width_of(string),
            Ident::Malformed(string, _) => width_of(string),
        }
    }

    /// Whether the identifier has no bytes.
    pub fn is_empty(&self) -> (empty: bool)
        requires
            self is Access ==> 0 <= self@.len() < usize::MAX,
        ensures
            empty == (self@.len() == 0),
    {
        self.len() == 0
    }
}

/// The text that the first `end` bytes encode.
fn text_to(buffer: &[u8], end: usize) -> (text: &str)
    requires
        end <= buffer@.len(),
        valid_utf8(buffer@.take(end as int)),
    ensures
        text@ == decode_utf8(buffer@.take(end as int)),
        byte_len(text@) == end,
{
    let prefix = slice_subrange(buffer, 0, end);
    proof {
        decode_utf8_encode_utf8(prefix@);
    }
    str_of_bytes(prefix).unwrap()
}

/// Whether the character at index `at` is `c`, an ASCII character.
fn char_is_at(buffer: &[u8], at: usize, c: char) -> (yes: bool)
    requires
        at <= buffer@.len(),
        c <= '\u{7f}',
    ensures
        yes == has_at(buffer@, at as int, c as u8),
{
    let rest = slice_subrange(buffer, at, buffer.len());
    proof {
        lemma_first_char_ascii(rest@);
        lemma_first_char_width(rest@);
    }
    match char_at_start(rest) {
        Some((found, _)) => found == c,
        None => false,
    }
}

/// The low 16 bits of a count of bytes.
fn to_u16(n: usize) -> (low: u16)
    ensures
        low == low16(n as int),
{
    reveal(low16);
    assert(n as u16 == n % 0x1_0000) by (bit_vector);
    n as u16
}

/// A sum of columns, which wraps around.
fn add_u16(a: u16, b: u16) -> (low: u16)
    ensures
        low == low16(a + b),
{
    reveal(low16);
    a.wrapping_add(b)
}

/// Skips forward to the next character that is not of an identifier, well-formed or not.
pub fn chomp_malformed(bytes: &[u8]) -> (chomped: usize)
    ensures
        chomped == run(bytes@, malformed_chars()),
{
    let mut chomped: usize = 0;
    assert(bytes@.skip(0) == bytes@);
    loop
        invariant
            chomped <= bytes@.len(),
            chomped + run(bytes@.skip(chomped as int), malformed_chars()) == run(
                bytes@,
                malformed_chars(),
            ),
        ensures
            chomped == run(bytes@, malformed_chars()),
        decreases bytes@.len() - chomped,
    {
        let rest = slice_subrange(bytes, chomped, bytes.len());
        match char_at_start(rest) {
            Some((ch, width)) => {
                // a numeric character need not be an ASCII digit: `¾` is not
                if ch == '.' || ch == '_' || char_is_alphabetic(ch) || ('0' <= ch && ch <= '9') {
                    proof {
                        lemma_first_char_width(rest@);
                        assert(rest@.skip(width as int) == bytes@.skip(chomped + width));
                    }
                    chomped = chomped + width;
                } else {
                    break;
                }
            },
            None => {
                break;
            },
        }
    }
    chomped
}

/// Goes over letters and digits from index `start` on, and returns where they end.
fn chomp_name_chars(buffer: &[u8], start: usize) -> (end: usize)
    requires
        start <= buffer@.len(),
    ensures
        end == start + run(buffer@.skip(start as int), name_chars()),
{
    let mut chomped: usize = start;
    loop
        invariant
            start <= chomped <= buffer@.len(),
            chomped + run(buffer@.skip(chomped as int), name_chars()) == start + run(
                buffer@.skip(start as int),
                name_chars(),
            ),
        ensures
            chomped == start + run(buffer@.skip(start as int), name_chars()),
        decreases buffer@.len() - chomped,
    {
        let rest = slice_subrange(buffer, chomped, buffer.len());
        match char_at_start(rest) {
            Some((ch, width)) => {
                if char_is_alphabetic(ch) || ('0' <= ch && ch <= '9') {
                    proof {
                        lemma_first_char_width(rest@);
                        assert(rest@.skip(width as int) == buffer@.skip(chomped + width));
                    }
                    chomped = chomped + width;
                } else {
                    // we're done
                    break;
                }
            },
            None => {
                break;
            },
        }
    }
    chomped
}

/// Reads a name whose first character `leading_is_good` accepts, up to the first character
/// that is neither a letter nor a digit. It fails, without progress, where there is no
/// character to start with or `leading_is_good` refuses it.
pub fn chomp_part<F>(leading_is_good: F, buffer: &[u8]) -> (result: Result<&str, Progress>) where
    F: Fn(char) -> bool,

    requires
        forall|c: char| call_requires(leading_is_good, (c,)),
    ensures
        match (result, first_char(buffer@)) {
            (Ok(name), Some((c, width))) => {
                let end = width + run(buffer@.skip(width), name_chars());
                &&& call_ensures(leading_is_good, (c,), true)
                &&& end <= buffer@.len()
                &&& valid_utf8(buffer@.take(end))
                &&& name@ == decode_utf8(buffer@.take(end))
                &&& byte_len(name@) == end
            },
            (Ok(_), None) => false,
            (Err(progress), Some((c, _))) => progress == Progress::NoProgress && call_ensures(
                leading_is_good,
                (c,),
                false,
            ),
            (Err(progress), None) => progress == Progress::NoProgress,
        },
{
    match char_at_start(buffer) {
        Some((ch, width)) => {
            proof {
                lemma_first_char_width(buffer@);
            }
            if leading_is_good(ch) {
                let chomped = chomp_name_chars(buffer, width);
                proof {
                    lemma_part(buffer@, |c: char| c == ch);
                }
                Ok(text_to(buffer, chomped))
            } else {
                Err(Progress::NoProgress)
            }
        },
        None => Err(Progress::NoProgress),
    }
}

/// Reads a name that starts with a lowercase letter.
pub fn chomp_lowercase_part(buffer: &[u8]) -> (result: Result<&str, Progress>)
    ensures
        match (result, lowercase_part(buffer@)) {
            (Ok(name), Some(n)) => {
                &&& name@ == decode_utf8(buffer@.take(n))
                &&& byte_len(name@) == n <= buffer@.len()
            },
            (Err(progress), None) => progress == Progress::NoProgress,
            _ => false,
        },
{
    chomp_part(char_is_lowercase, buffer)
}

/// Reads a name that starts with an uppercase letter.
pub fn chomp_uppercase_part(buffer: &[u8]) -> (result: Result<&str, Progress>)
    ensures
        match (result, uppercase_part(buffer@)) {
            (Ok(name), Some(n)) => {
                &&& name@ == decode_utf8(buffer@.take(n))
                &&& byte_len(name@) == n <= buffer@.len()
            },
            (Err(progress), None) => progress == Progress::NoProgress,
            _ => false,
        },
{
    chomp_part(char_is_uppercase, buffer)
}

/// Reads a `.foo` accessor function whose leading `.` has been chomped already.
pub fn chomp_accessor(buffer: &[u8], row: Row, col: Col) -> (result: Result<&str, BadIdent>)
    ensures
        match (result, accessor(buffer@, row, col)) {
            (Ok(name), Ok(expected)) => name@ == expected && byte_len(name@) <= buffer@.len(),
            (Err(problem), Err(expected)) => problem == expected,
            _ => false,
        },
{
    match chomp_lowercase_part(buffer) {
        Ok(name) => {
            let chomped = width_of(name);
            if char_is_at(buffer, chomped, '.') {
                Err(BadIdent::WeirdAccessor(row, col))
            } else {
                Ok(name)
            }
        },
        // the initial `.` was progress already
        Err(_) => Err(BadIdent::StrayDot(row, add_u16(col, 1))),
    }
}

/// Reads a `@Token` private tag whose leading `@` has not been chomped yet.
pub fn chomp_private_tag(buffer: &[u8], row: Row, col: Col) -> (result: Result<&str, BadIdent>)
    requires
        has_at(buffer@, 0, AT),
    ensures
        match (result, private_tag(buffer@, row, col)) {
            (Ok(name), Ok(expected)) => name@ == expected && byte_len(name@) <= buffer@.len(),
            (Err(problem), Err(expected)) => problem == expected,
            _ => false,
        },
{
    match chomp_uppercase_part(slice_subrange(buffer, 1, buffer.len())) {
        Ok(name) => {
            let width = 1 + width_of(name);
            if char_is_at(buffer, width, '.') {
                proof {
                    lemma_low16_sum(width as int, col as int);
                }
                Err(BadIdent::BadPrivateTag(row, add_u16(col, to_u16(width))))
            } else {
                proof {
                    lemma_part(buffer@.skip(1), uppercase());
                    lemma_ascii_then_text(buffer@, width as int);
                }
                Ok(text_to(buffer, width))
            }
        },
        Err(_) => Err(BadIdent::BadPrivateTag(row, add_u16(col, 1))),
    }
}

/// Reads a `.Foo.Bar` chain of uppercase names and returns the low 16 bits of its width. It
/// fails, without progress, where there is no such chain.
pub fn chomp_module_chain(buffer: &[u8]) -> (result: Result<u16, Progress>)
    ensures
        match result {
            Ok(width) => module_chain(buffer@) > 0 && width == low16(module_chain(buffer@)),
            Err(progress) => module_chain(buffer@) == 0 && progress == Progress::NoProgress,
        },
{
    let mut chomped: usize = 0;
    assert(buffer@.skip(0) == buffer@);
    while chomped < buffer.len() && buffer[chomped] == DOT
        invariant
            chomped <= buffer@.len(),
            chomped + module_chain(buffer@.skip(chomped as int)) == module_chain(buffer@),
        ensures
            chomped == module_chain(buffer@),
        decreases buffer@.len() - chomped,
    {
        let slice = slice_subrange(buffer, chomped + 1, buffer.len());
        assert(slice@ == buffer@.skip(chomped as int).skip(1));
        match chomp_uppercase_part(slice) {
            Ok(name) => {
                let width = width_of(name) + 1;
                assert(buffer@.skip(chomped as int).skip(width as int) == buffer@.skip(
                    chomped + width,
                ));
                chomped = chomped + width;
            },
            Err(Progress::MadeProgress) => {
                return Err(Progress::MadeProgress);
            },
            Err(Progress::NoProgress) => {
                break;
            },
        }
    }
    if chomped == 0 {
        Err(Progress::NoProgress)
    } else {
        Ok(to_u16(chomped))
    }
}

/// Reads a `.foo.bar` chain of lowercase names and puts the names behind those in `parts`. It
/// returns the low 16 bits of the chain's width, or fails: with 0 where there is no dot to
/// start with, and otherwise with where the dot ends that has no name behind it.
pub fn chomp_access_chain<'a>(
    buffer: &'a [u8],
    parts: &mut bumpalo::collections::Vec<'a, &'a str>,
) -> (result: Result<u16, u16>)
    requires
        names_in(*old(parts)).len() + buffer@.len() <= usize::MAX,
    ensures
        names_in(*final(parts)) == names_in(*old(parts)) + access_chain(buffer@).names,
        match result {
            Ok(width) => {
                &&& access_chain(buffer@).width > 0
                &&& !access_chain(buffer@).stray_dot
                &&& width == low16(access_chain(buffer@).width)
            },
            Err(width) => if access_chain(buffer@).stray_dot {
                width == low16(access_chain(buffer@).width + 1)
            } else {
                access_chain(buffer@).width == 0 && width == 0
            },
        },
{
    let ghost chain = access_chain(buffer@);
    let ghost before = names_in(*parts);
    let mut chomped: usize = 0;
    assert(buffer@.skip(0) == buffer@);
    while chomped < buffer.len() && buffer[chomped] == DOT
        invariant
            chomped <= buffer@.len(),
            chain == access_chain(buffer@),
            before == names_in(*old(parts)),
            chain.width == chomped + access_chain(buffer@.skip(chomped as int)).width,
            chain.stray_dot == access_chain(buffer@.skip(chomped as int)).stray_dot,
            before + chain.names == names_in(*parts) + access_chain(
                buffer@.skip(chomped as int),
            ).names,
            before.len() + buffer@.len() <= usize::MAX,
            names_in(*parts).len() <= before.len() + chomped,
        decreases buffer@.len() - chomped,
    {
        let slice = slice_subrange(buffer, chomped + 1, buffer.len());
        let ghost here = buffer@.skip(chomped as int);
        assert(slice@ == here.skip(1));
        match chomp_lowercase_part(slice) {
            Ok(name) => {
                let width = width_of(name) + 1;
                proof {
                    assert(here.skip(width as int) == buffer@.skip(chomped + width));
                    lemma_access_chain_step(here, width - 1, names_in(*parts));
                }
                push_name(parts, name);
                chomped = chomped + width;
            },
            Err(_) => {
                assert(names_in(*parts) + access_chain(here).names == names_in(*parts));
                proof {
                    lemma_low16_sum(chomped as int, 1);
                }
                return Err(add_u16(to_u16(chomped), 1));
            },
        }
    }
    assert(names_in(*parts) + access_chain(buffer@.skip(chomped as int)).names == names_in(*parts));
    if chomped == 0 {
        Err(0)
    } else {
        Ok(to_u16(chomped))
    }
}

/// A result by the text of its identifier.
pub open spec fn chain_result(result: Result<(u16, Ident), (u16, BadIdent)>) -> Result<
    (u16, IdentView),
    (u16, BadIdent),
> {
    match result {
        Ok((width, ident)) => Ok((width, ident@)),
        Err((width, problem)) => Err((width, problem)),
    }
}

/// Reads on behind the first name of an identifier, where a dot follows it.
fn chomp_dotted<'a>(
    arena: &'a Bump,
    buffer: &'a [u8],
    end: usize,
    first_is_uppercase: bool,
    row: Row,
    col: Col,
) -> (result: Result<(u16, Ident<'a>), (u16, BadIdent)>)
    requires
        1 <= end,
        has_at(buffer@, end as int, DOT),
        valid_utf8(buffer@.take(end as int)),
    ensures
        chain_result(result) == dotted(buffer@, end as int, first_is_uppercase, row, col),
{
    let mut chomped: usize = end;
    let mut parts = new_list(arena);
    proof {
        reveal_strlit("");
        lemma_module_chain(buffer@.skip(end as int));
        lemma_low16_small(module_chain(buffer@.skip(end as int)));
        lemma_low16_small(0);
    }
    if first_is_uppercase {
        match chomp_module_chain(slice_subrange(buffer, end, buffer.len())) {
            Ok(width) => {
                chomped = end + width as usize;
            },
            // the first name is the whole module name
            Err(_) => {},
        }
    } else {
        push_name(&mut parts, text_to(buffer, end));
    }
    proof {
        let first_part: Seq<Seq<char>> = if first_is_uppercase {
            seq![]
        } else {
            seq![decode_utf8(buffer@.take(end as int))]
        };
        assert(names_in(parts) == first_part);
        assert(""@ == Seq::<char>::empty());
    }
    let start = to_u16(chomped);
    match chomp_access_chain(slice_subrange(buffer, chomped, buffer.len()), &mut parts) {
        Ok(width) => {
            proof {
                lemma_low16_sum(chomped as int, access_chain(buffer@.skip(chomped as int)).width);
                lemma_module_name(buffer@, end as int, chomped as int);
            }
            let module_name = if first_is_uppercase {
                text_to(buffer, chomped)
            } else {
                ""
            };
            let parts = into_slice(parts);
            Ok((add_u16(start, width), Ident::Access { module_name, parts }))
        },
        Err(width) => {
            proof {
                lemma_low16_sum(chomped as int, col as int);
                lemma_low16_sum(chomped as int, 1);
                lemma_low16_sum(chomped + 1, col as int);
                lemma_low16_sum(chomped as int, width as int);
                lemma_low16_sum(chomped + width, col as int);
            }
            if width == 0 && first_is_uppercase {
                Err((start, BadIdent::QualifiedTag(row, add_u16(start, col))))
            } else if width == 1 && list_is_empty(&parts) {
                let stop = add_u16(start, 1);
                Err((stop, BadIdent::WeirdDotQualified(row, add_u16(stop, col))))
            } else {
                let stop = add_u16(start, width);
                Err((stop, BadIdent::WeirdDotAccess(row, add_u16(stop, col))))
            }
        },
    }
}

/// Reads the identifier at the start of `buffer`. It returns the identifier and its width, or
/// what is wrong and how far the input went before it was. Widths and columns have 16 bits
/// and wrap around.
pub fn chomp_identifier_chain<'a>(
    arena: &'a Bump,
    buffer: &'a [u8],
    row: Row,
    col: Col,
) -> (result: Result<(u16, Ident<'a>), (u16, BadIdent)>)
    ensures
        chain_result(result) == identifier_chain(buffer@, row, col),
{
    proof {
        lemma_first_char_ascii(buffer@);
        lemma_first_char_width(buffer@);
    }
    let first_is_uppercase: bool;
    let chomped: usize;
    match char_at_start(buffer) {
        Some((ch, width)) => {
            if ch == '.' {
                return match chomp_accessor(slice_subrange(buffer, 1, buffer.len()), row, col) {
                    Ok(accessor) => {
                        let bytes_parsed = 1 + width_of(accessor);
                        Ok((to_u16(bytes_parsed), Ident::AccessorFunction(accessor)))
                    },
                    Err(fail) => Err((1, fail)),
                };
            } else if ch == '@' {
                return match chomp_private_tag(buffer, row, col) {
                    Ok(tagname) => {
                        let bytes_parsed = width_of(tagname);
                        Ok((to_u16(bytes_parsed), Ident::PrivateTag(tagname)))
                    },
                    Err(fail) => Err((1, fail)),
                };
            } else if char_is_alphabetic(ch) {
                proof {
                    lemma_part(buffer@, alphabetic());
                    lemma_part(buffer@, |c: char| c == ch);
                }
                first_is_uppercase = char_is_uppercase(ch);
                chomped = chomp_name_chars(buffer, width);
            } else {
                return Err((0, BadIdent::Start(row, col)));
            }
        },
        None => {
            return Err((0, BadIdent::Start(row, col)));
        },
    }
    assert(alphabetic_part(buffer@) == Some(chomped as int));
    if char_is_at(buffer, chomped, '.') {
        chomp_dotted(arena, buffer, chomped, first_is_uppercase, row, col)
    } else if char_is_at(buffer, chomped, '_') {
        // we don't allow underscores in the middle of an identifier
        // but still parse them (and generate a malformed identifier)
        // to give good error messages for this case
        proof {
            lemma_low16_sum(chomped as int, 1);
            lemma_low16_sum(chomped + 1, col as int);
        }
        let width = add_u16(to_u16(chomped), 1);
        Err((width, BadIdent::Underscore(row, add_u16(col, width))))
    } else if first_is_uppercase {
        // just one segment, starting with an uppercase letter; that's a global tag
        Ok((to_u16(chomped), Ident::GlobalTag(text_to(buffer, chomped))))
    } else {
        // just one segment, starting with a lowercase letter; that's a normal identifier
        let name = text_to(buffer, chomped);
        let parts = alloc_name(arena, name);
        proof {
            reveal_strlit("");
            assert(""@ == Seq::<char>::empty());
            assert(texts(parts@) == seq![name@]);
        }
        Ok((to_u16(chomped), Ident::Access { module_name: "", parts }))
    }
}

/// Reads a type name like `Result` or `Result.Result`, and returns its module, its name and
/// its width.
pub fn chomp_concrete_type(buffer: &[u8]) -> (result: Result<(&str, &str, usize), Progress>)
    ensures
        match (result, concrete_name(buffer@)) {
            (Ok((module_name, name, width)), Ok((expected_module, expected_type, expected))) => {
                &&& module_name@ == expected_module
                &&& name@ == expected_type
                &&& width == expected
                &&& width <= buffer@.len()
            },
            (Err(progress), Err(expected)) => progress == expected,
            _ => false,
        },
{
    proof {
        reveal_strlit("");
        assert(""@ == Seq::<char>::empty());
        lemma_part(buffer@, uppercase());
    }
    let first = match chomp_uppercase_part(buffer) {
        Ok(first) => first,
        Err(progress) => {
            return Err(progress);
        },
    };
    let first_width = width_of(first);
    if first_width >= buffer.len() || buffer[first_width] != DOT {
        return Ok(("", first, first_width));
    }
    let rest = slice_subrange(buffer, first_width, buffer.len());
    proof {
        lemma_module_chain(rest@);
        lemma_low16_small(module_chain(rest@));
    }
    match chomp_module_chain(rest) {
        Err(_) => Err(Progress::MadeProgress),
        Ok(chain) => {
            let width = first_width + chain as usize;
            // we must explicitly check here for a trailing `.`
            if width < buffer.len() && buffer[width] == DOT {
                return Err(Progress::MadeProgress);
            }
            let ghost slice = buffer@.take(width as int);
            let mut index: usize = width;
            assert(slice.take(width as int) == slice);
            while index > 0 && buffer[index - 1] != DOT
                invariant
                    index <= width <= buffer@.len(),
                    slice == buffer@.take(width as int),
                    last_dot(slice.take(index as int)) == last_dot(slice),
                decreases index,
            {
                assert(slice.take(index as int).drop_last() == slice.take(index - 1));
                index = index - 1;
            }
            if index == 0 {
                Ok(("", first, first_width))
            } else {
                proof {
                    assert(last_dot(slice) == Some(index - 1));
                    lemma_module_name(buffer@, first_width as int, index - 1);
                }
                let module_name = text_to(buffer, index - 1);
                match str_of_bytes(slice_subrange(buffer, index, width)) {
                    Some(name) => Ok((module_name, name, width)),
                    None => Err(Progress::MadeProgress),
                }
            }
        },
    }
}

/// The parser behind [`lowercase_ident`].
struct LowercaseIdent {}

impl<'a> Parser<'a, &'a str, ()> for LowercaseIdent {
    open spec fn parses_to(&self, state: StateView) -> Outcome<Seq<char>, ()> {
        lowercase_ident_outcome(state)
    }

    fn parse(&self, arena: &'a Bump, state: State<'a>) -> (result: ParseResult<'a, &'a str, ()>) {
        match chomp_lowercase_part(state.bytes()) {
            Err(progress) => Err((progress, (), state)),
            Ok(ident) => {
                if found_in_keywords(ident) {
                    return Err((Progress::NoProgress, (), state));
                }
                let width = width_of(ident);
                match state.advance_without_indenting_ee(width, |_row: Row, _col: Col| ()) {
                    Ok(state) => Ok((Progress::MadeProgress, ident, state)),
                    Err(bad) => Err(bad),
                }
            },
        }
    }
}

/// This could be:
///
/// * A record field, e.g. "email" in `.email` or in `email:`
/// * A named pattern match, e.g. "foo" in `foo =` or `foo ->` or `\foo ->`
pub fn lowercase_ident<'a>() -> (parser: impl Parser<'a, &'a str, ()>)
    ensures
        forall|state: StateView| #[trigger]
            parser.parses_to(state) == lowercase_ident_outcome(state),
{
    LowercaseIdent {}
}

/// The parser behind [`uppercase_ident`].
struct UppercaseIdent {}

impl<'a> Parser<'a, &'a str, ()> for UppercaseIdent {
    open spec fn parses_to(&self, state: StateView) -> Outcome<Seq<char>, ()> {
        uppercase_ident_outcome(state)
    }

    fn parse(&self, arena: &'a Bump, state: State<'a>) -> (result: ParseResult<'a, &'a str, ()>) {
        match chomp_uppercase_part(state.bytes()) {
            Err(progress) => Err((progress, (), state)),
            Ok(ident) => {
                let width = width_of(ident);
                match state.advance_without_indenting_ee(width, |_row: Row, _col: Col| ()) {
                    Ok(state) => Ok((Progress::MadeProgress, ident, state)),
                    Err(bad) => Err(bad),
                }
            },
        }
    }
}

/// This could be:
///
/// * A module name
/// * A type name
/// * A global tag
pub fn uppercase_ident<'a>() -> (parser: impl Parser<'a, &'a str, ()>)
    ensures
        forall|state: StateView| #[trigger]
            parser.parses_to(state) == uppercase_ident_outcome(state),
{
    UppercaseIdent {}
}

/// The parser behind [`unqualified_ident`].
struct UnqualifiedIdent {}

impl<'a> Parser<'a, &'a str, ()> for UnqualifiedIdent {
    open spec fn parses_to(&self, state: StateView) -> Outcome<Seq<char>, ()> {
        unqualified_ident_outcome(state)
    }

    fn parse(&self, arena: &'a Bump, state: State<'a>) -> (result: ParseResult<'a, &'a str, ()>) {
        match chomp_part(char_is_alphabetic, state.bytes()) {
            Err(progress) => Err((progress, (), state)),
            Ok(ident) => {
                if found_in_keywords(ident) {
                    return Err((Progress::MadeProgress, (), state));
                }
                let width = width_of(ident);
                match state.advance_without_indenting_ee(width, |_row: Row, _col: Col| ()) {
                    Ok(state) => Ok((Progress::MadeProgress, ident, state)),
                    Err(bad) => Err(bad),
                }
            },
        }
    }
}

/// A name of either case, without dots.
pub fn unqualified_ident<'a>() -> (parser: impl Parser<'a, &'a str, ()>)
    ensures
        forall|state: StateView| #[trigger]
            parser.parses_to(state) == unqualified_ident_outcome(state),
{
    UnqualifiedIdent {}
}

/// The parser behind [`tag_name`].
struct TagName {}

impl<'a> Parser<'a, &'a str, ()> for TagName {
    open spec fn parses_to(&self, state: StateView) -> Outcome<Seq<char>, ()> {
        tag_name_outcome(state)
    }

    fn parse(&self, arena: &'a Bump, state: State<'a>) -> (result: ParseResult<'a, &'a str, ()>) {
        let bytes = state.bytes();
        if bytes.len() > 0 && bytes[0] == AT {
            match chomp_private_tag(bytes, state.line, state.column) {
                Err(BadIdent::Start(_, _)) => Err((Progress::NoProgress, (), state)),
                Err(_) => Err((Progress::MadeProgress, (), state)),
                Ok(ident) => {
                    let width = width_of(ident);
                    match state.advance_without_indenting_ee(width, |_row: Row, _col: Col| ()) {
                        Ok(state) => Ok((Progress::MadeProgress, ident, state)),
                        Err(bad) => Err(bad),
                    }
                },
            }
        } else {
            uppercase_ident().parse(arena, state)
        }
    }
}

/// A tag, `Foo` or `@Foo`.
pub fn tag_name<'a>() -> (parser: impl Parser<'a, &'a str, ()>)
    ensures
        forall|state: StateView| #[trigger]
            parser.parses_to(state) == tag_name_outcome(state),
{
    TagName {}
}

/// The parser behind [`concrete_type`].
struct ConcreteType {}

impl<'a> Parser<'a, (&'a str, &'a str), ()> for ConcreteType {
    open spec fn parses_to(&self, state: StateView) -> Outcome<(Seq<char>, Seq<char>), ()> {
        concrete_type_outcome(state)
    }

    fn parse(&self, arena: &'a Bump, state: State<'a>) -> (result: ParseResult<
        'a,
        (&'a str, &'a str),
        (),
    >) {
        match chomp_concrete_type(state.bytes()) {
            Err(progress) => Err((progress, (), state)),
            Ok((module_name, name, width)) => {
                match state.advance_without_indenting_ee(width, |_row: Row, _col: Col| ()) {
                    Ok(state) => Ok((Progress::MadeProgress, (module_name, name), state)),
                    Err(bad) => Err(bad),
                }
            },
        }
    }
}

/// A type name like `Result` or `Result.Result`, as its module and its name.
pub fn concrete_type<'a>() -> (parser: impl Parser<'a, (&'a str, &'a str), ()>)
    ensures
        forall|state: StateView| #[trigger]
            parser.parses_to(state) == concrete_type_outcome(state),
{
    ConcreteType {}
}

/// Gives back as malformed what went wrong at `state`, with all that follows it and could
/// still belong to the identifier.
fn malformed_identifier<'a>(
    initial_bytes: &'a [u8],
    problem: BadIdent,
    state: State<'a>,
) -> (result: ParseResult<'a, Ident<'a>, EExpr>)
    requires
        state@.bytes.len() <= initial_bytes@.len(),
    ensures
        outcome(result) == malformed_outcome(initial_bytes@, problem, state@),
{
    let chomped = chomp_malformed(state.bytes());
    let delta = initial_bytes.len() - state.bytes().len();
    proof {
        lemma_run(state@.bytes, malformed_chars());
    }
    let parsed_bytes = slice_subrange(initial_bytes, 0, chomped + delta);
    let line_too_long = |row: Row, col: Col| -> (error: EExpr)
        ensures
            error == EExpr::Space(BadInputError::LineTooLong, row, col),
        { EExpr::Space(BadInputError::LineTooLong, row, col) };
    match str_of_bytes(parsed_bytes) {
        Some(parsed_str) => match state.advance_without_indenting_ee(chomped, line_too_long) {
            Ok(state) => Ok((Progress::MadeProgress, Ident::Malformed(parsed_str, problem), state)),
            Err(bad) => Err(bad),
        },
        // only a width of which 16 bits were kept stops within a character
        None => Err((Progress::NoProgress, line_too_long(state.line, state.column), state)),
    }
}

/// Reads an identifier, and tells apart what went wrong from where.
fn parse_ident_help<'a>(arena: &'a Bump, state: State<'a>) -> (result: ParseResult<
    'a,
    Ident<'a>,
    BadIdent,
>)
    ensures
        outcome(result) == parse_ident_help_outcome(state@),
{
    let line_too_long = |row: Row, col: Col| -> (problem: BadIdent)
        ensures
            problem == BadIdent::Space(BadInputError::LineTooLong, row, col),
        { BadIdent::Space(BadInputError::LineTooLong, row, col) };
    proof {
        lemma_chain_width(state@.bytes, state.line, state.column);
    }
    match chomp_identifier_chain(arena, state.bytes(), state.line, state.column) {
        Ok((width, ident)) => {
            match state.advance_without_indenting_ee(width as usize, line_too_long) {
                Ok(state) => Ok((Progress::MadeProgress, ident, state)),
                Err(bad) => Err(bad),
            }
        },
        Err((0, fail)) => Err((Progress::NoProgress, fail, state)),
        Err((width, fail)) => {
            match state.advance_without_indenting_ee(width as usize, line_too_long) {
                Ok(state) => Err((Progress::MadeProgress, fail, state)),
                Err(bad) => Err(bad),
            }
        },
    }
}

/// Reads an identifier. One that goes wrong on the way is given back as malformed; what does
/// not start like an identifier, or is a keyword, starts no expression.
pub fn parse_ident<'a>(arena: &'a Bump, state: State<'a>) -> (result: ParseResult<
    'a,
    Ident<'a>,
    EExpr,
>)
    ensures
        outcome(result) == parse_ident_outcome(state@),
{
    let initial = state;
    proof {
        lemma_chain_width(state@.bytes, state.line, state.column);
    }
    match parse_ident_help(arena, state) {
        Ok((progress, ident, state)) => {
            if let Ident::Access { module_name, parts } = ident {
                if module_name.is_empty() && parts.len() > 0 {
                    if found_in_keywords(parts[0]) {
                        return Err(
                            (
                                Progress::NoProgress,
                                EExpr::Start(initial.line, initial.column),
                                initial,
                            ),
                        );
                    }
                }
            }
            Ok((progress, ident, state))
        },
        Err((Progress::NoProgress, _, state)) => {
            Err((Progress::NoProgress, EExpr::Start(state.line, state.column), state))
        },
        Err((Progress::MadeProgress, fail, state)) => match fail {
            BadIdent::Start(r, c) => Err((Progress::NoProgress, EExpr::Start(r, c), state)),
            BadIdent::Space(e, r, c) => Err((Progress::NoProgress, EExpr::Space(e, r, c), state)),
            _ => malformed_identifier(initial.bytes(), fail, state),
        },
    }
}

} // verus!
