//! What the parsers accept, as functions of the bytes alone.
use vstd::prelude::*;
use vstd::utf8::{
    decode_utf8, decode_utf8_encode_utf8, encode_utf8,
    is_char_boundary_iff_not_is_continuation_byte, valid_utf8, valid_utf8_concat, valid_utf8_split,
};
use crate::chars::{
    first_char, is_alphabetic, is_lowercase, is_uppercase, lemma_first_char_ascii,
    lemma_first_char_width,
};
use crate::ident::{BadIdent, IdentView};
use crate::parser::{Col, Progress, Row};

verus! {

/// The byte that encodes `.`
pub const DOT: u8 = 0x2e;

/// The byte that encodes `@`
pub const AT: u8 = 0x40;

/// The byte that encodes `_`
pub const UNDERSCORE: u8 = 0x5f;

/// What a name may hold past its first character.
pub open spec fn is_name_char(c: char) -> bool {
    is_alphabetic(c) || '0' <= c <= '9'
}

/// What is skipped as part of a malformed identifier.
pub open spec fn is_malformed_char(c: char) -> bool {
    c == '.' || c == '_' || is_name_char(c)
}

/// The lowercase letters.
pub open spec fn lowercase() -> spec_fn(char) -> bool {
    |c: char| is_lowercase(c)
}

/// The uppercase letters.
pub open spec fn uppercase() -> spec_fn(char) -> bool {
    |c: char| is_uppercase(c)
}

/// The letters of either case, and those of none.
pub open spec fn alphabetic() -> spec_fn(char) -> bool {
    |c: char| is_alphabetic(c)
}

/// Letters and ASCII digits.
pub open spec fn name_chars() -> spec_fn(char) -> bool {
    |c: char| is_name_char(c)
}

/// Name characters, dots and underscores.
pub open spec fn malformed_chars() -> spec_fn(char) -> bool {
    |c: char| is_malformed_char(c)
}

/// The number of bytes that encode the characters of a class which `bytes` starts with, up to
/// the first character outside the class or the first byte that is not UTF-8.
pub open spec fn run(bytes: Seq<u8>, class: spec_fn(char) -> bool) -> int
    decreases bytes.len(),
{
    match first_char(bytes) {
        Some((c, width)) => if class(c) {
            proof {
                lemma_first_char_width(bytes);
            }
            width + run(bytes.skip(width), class)
        } else {
            0
        },
        None => 0,
    }
}

/// The width in bytes of the name that `bytes` starts with, where its first character must be
/// of a given class.
pub open spec fn part(bytes: Seq<u8>, leading: spec_fn(char) -> bool) -> Option<int> {
    match first_char(bytes) {
        Some((c, width)) => if leading(c) {
            Some(width + run(bytes.skip(width), name_chars()))
        } else {
            None
        },
        None => None,
    }
}

/// A name that starts lowercase.
pub open spec fn lowercase_part(bytes: Seq<u8>) -> Option<int> {
    part(bytes, lowercase())
}

/// A name that starts uppercase.
pub open spec fn uppercase_part(bytes: Seq<u8>) -> Option<int> {
    part(bytes, uppercase())
}

/// A name that starts with any letter.
pub open spec fn alphabetic_part(bytes: Seq<u8>) -> Option<int> {
    part(bytes, alphabetic())
}

/// A run ends where it says: it stays within the bytes, is UTF-8, holds only characters of the
/// class, and is followed by none.
pub proof fn lemma_run(bytes: Seq<u8>, class: spec_fn(char) -> bool)
    ensures
        0 <= run(bytes, class) <= bytes.len(),
        valid_utf8(bytes.take(run(bytes, class))),
        forall|i: int|
            #![trigger decode_utf8(bytes.take(run(bytes, class)))[i]]
            0 <= i < decode_utf8(bytes.take(run(bytes, class))).len() ==> class(
                decode_utf8(bytes.take(run(bytes, class)))[i],
            ),
        first_char(bytes.skip(run(bytes, class))) matches Some((c, _)) ==> !class(c),
    decreases bytes.len(),
{
    lemma_first_char_width(bytes);
    match first_char(bytes) {
        Some((c, width)) => if class(c) {
            let rest = bytes.skip(width);
            lemma_run(rest, class);
            let n = run(bytes, class);
            lemma_one_char_first(bytes, c, width, n);
            assert(bytes.skip(n) == rest.skip(run(rest, class)));
            assert(bytes.take(n).skip(width) == rest.take(run(rest, class)));
        } else {
            assert(bytes.skip(0) == bytes);
        },
        None => {
            assert(bytes.skip(0) == bytes);
        },
    }
}

/// Where a prefix of `bytes` is long enough for the first character, it starts with it too,
/// and it is UTF-8 where what follows the character is.
pub proof fn lemma_one_char_first(bytes: Seq<u8>, c: char, width: int, n: int)
    requires
        first_char(bytes) == Some((c, width)),
        width <= n <= bytes.len(),
    ensures
        first_char(bytes.take(n)) == Some((c, width)),
        valid_utf8(bytes.take(n)) == valid_utf8(bytes.take(n).skip(width)),
        valid_utf8(bytes.take(n)) ==> decode_utf8(bytes.take(n)) == seq![c] + decode_utf8(
            bytes.take(n).skip(width),
        ),
{
    reveal(first_char);
}

/// A part takes at least one byte, is UTF-8, starts with a character of the leading class,
/// goes on with name characters, and is followed by none.
pub proof fn lemma_part(bytes: Seq<u8>, leading: spec_fn(char) -> bool)
    ensures
        part(bytes, leading) matches Some(n) ==> {
            let name = decode_utf8(bytes.take(n));
            &&& 1 <= n <= bytes.len()
            &&& valid_utf8(bytes.take(n))
            &&& name.len() > 0
            &&& leading(name[0])
            &&& forall|i: int| 1 <= i < name.len() ==> is_name_char(#[trigger] name[i])
            &&& first_char(bytes.skip(n)) matches Some((c, _)) ==> !is_name_char(c)
        },
{
    lemma_first_char_width(bytes);
    if let Some((c, width)) = first_char(bytes) {
        let rest = bytes.skip(width);
        let tail = run(rest, name_chars());
        lemma_run(rest, name_chars());
        let n = width + tail;
        lemma_one_char_first(bytes, c, width, n);
        assert(bytes.take(n).skip(width) == rest.take(tail));
        assert(bytes.skip(n) == rest.skip(tail));
    }
}

/// The width in bytes of the longest `.Foo.Bar` chain of uppercase names that `bytes` starts
/// with.
pub open spec fn module_chain(bytes: Seq<u8>) -> int
    decreases bytes.len(),
{
    if bytes.len() > 0 && bytes[0] == DOT {
        match uppercase_part(bytes.skip(1)) {
            Some(n) => {
                proof {
                    lemma_part(bytes.skip(1), uppercase());
                }
                1 + n + module_chain(bytes.skip(1 + n))
            },
            None => 0,
        }
    } else {
        0
    }
}

/// A module chain stays within the bytes and is UTF-8.
pub proof fn lemma_module_chain(bytes: Seq<u8>)
    ensures
        0 <= module_chain(bytes) <= bytes.len(),
        valid_utf8(bytes.take(module_chain(bytes))),
    decreases bytes.len(),
{
    if has_at(bytes, 0, DOT) {
        if let Some(n) = uppercase_part(bytes.skip(1)) {
            lemma_part(bytes.skip(1), uppercase());
            let rest = bytes.skip(1 + n);
            lemma_module_chain(rest);
            let end = 1 + n + module_chain(rest);
            valid_utf8_concat(bytes.skip(1).take(n), rest.take(module_chain(rest)));
            assert(bytes.skip(1).take(end - 1) == bytes.skip(1).take(n) + rest.take(
                module_chain(rest),
            ));
            lemma_ascii_then_text(bytes, end);
        }
    }
}

/// The name of a module is UTF-8: the first name, and the chain behind it up to its end or up
/// to a dot within it.
pub proof fn lemma_module_name(bytes: Seq<u8>, end: int, module_end: int)
    requires
        0 <= end <= bytes.len(),
        valid_utf8(bytes.take(end)),
        0 <= module_end <= end + module_chain(bytes.skip(end)),
        has_at(bytes, module_end, DOT) || module_end == end + module_chain(bytes.skip(end)),
    ensures
        valid_utf8(bytes.take(module_end)),
{
    let chain = module_chain(bytes.skip(end));
    lemma_module_chain(bytes.skip(end));
    let whole = bytes.take(end + chain);
    valid_utf8_concat(bytes.take(end), bytes.skip(end).take(chain));
    assert(whole == bytes.take(end) + bytes.skip(end).take(chain));
    if module_end < end + chain {
        is_char_boundary_iff_not_is_continuation_byte(whole, module_end);
        valid_utf8_split(whole, module_end);
        assert(whole.subrange(0, module_end) == bytes.take(module_end));
    }
}

/// A `.foo.bar` chain of lowercase names.
pub struct AccessChain {
    /// The names, without their dots.
    pub names: Seq<Seq<char>>,
    /// The bytes that the names and the dots before them take.
    pub width: int,
    /// Whether one more dot follows, with no lowercase name behind it.
    pub stray_dot: bool,
}

/// The longest `.foo.bar` chain of lowercase names that `bytes` starts with.
pub open spec fn access_chain(bytes: Seq<u8>) -> AccessChain
    decreases bytes.len(),
{
    if bytes.len() > 0 && bytes[0] == DOT {
        match lowercase_part(bytes.skip(1)) {
            Some(n) => {
                proof {
                    lemma_part(bytes.skip(1), lowercase());
                }
                let rest = access_chain(bytes.skip(1 + n));
                AccessChain {
                    names: seq![decode_utf8(bytes.subrange(1, 1 + n))] + rest.names,
                    width: 1 + n + rest.width,
                    stray_dot: rest.stray_dot,
                }
            },
            None => AccessChain { names: seq![], width: 0, stray_dot: true },
        }
    } else {
        AccessChain { names: seq![], width: 0, stray_dot: false }
    }
}

/// A chain that starts with a dot and a name goes on with the chain behind them.
pub proof fn lemma_access_chain_step(bytes: Seq<u8>, n: int, before: Seq<Seq<char>>)
    requires
        has_at(bytes, 0, DOT),
        lowercase_part(bytes.skip(1)) == Some(n),
    ensures
        access_chain(bytes).width == 1 + n + access_chain(bytes.skip(1 + n)).width,
        access_chain(bytes).stray_dot == access_chain(bytes.skip(1 + n)).stray_dot,
        before + access_chain(bytes).names == before.push(decode_utf8(bytes.skip(1).take(n)))
            + access_chain(bytes.skip(1 + n)).names,
{
    lemma_part(bytes.skip(1), lowercase());
    assert(bytes.subrange(1, 1 + n) == bytes.skip(1).take(n));
}

/// The number of bytes that encode a text.
pub open spec fn byte_len(text: Seq<char>) -> int {
    encode_utf8(text).len() as int
}

/// What 16 bits keep of a count of bytes or columns.
#[verifier::opaque]
pub open spec fn low16(n: int) -> u16 {
    (n % 0x1_0000) as u16
}

/// A count that fits 16 bits is kept, and none grows.
pub proof fn lemma_low16_small(n: int)
    requires
        0 <= n,
    ensures
        low16(n) <= n,
        n <= u16::MAX ==> low16(n) == n,
{
    reveal(low16);
}

/// Cutting the summands down to 16 bits first makes no difference to a sum.
pub proof fn lemma_low16_sum(a: int, b: int)
    ensures
        low16(low16(a) + b) == low16(a + b),
        low16(low16(a) + low16(b)) == low16(a + b),
{
    reveal(low16);
}

/// Whether `bytes` holds `byte` at index `at`.
pub open spec fn has_at(bytes: Seq<u8>, at: int, byte: u8) -> bool {
    0 <= at < bytes.len() && bytes[at] == byte
}

/// A `.foo` accessor function, behind its dot.
pub open spec fn accessor(bytes: Seq<u8>, row: Row, col: Col) -> Result<Seq<char>, BadIdent> {
    match lowercase_part(bytes) {
        Some(n) => if has_at(bytes, n, DOT) {
            Err(BadIdent::WeirdAccessor(row, col))
        } else {
            Ok(decode_utf8(bytes.take(n)))
        },
        None => Err(BadIdent::StrayDot(row, low16(col + 1))),
    }
}

/// A `@Foo` private tag, with its `@`.
pub open spec fn private_tag(bytes: Seq<u8>, row: Row, col: Col) -> Result<Seq<char>, BadIdent> {
    match uppercase_part(bytes.skip(1)) {
        Some(n) => if has_at(bytes, 1 + n, DOT) {
            Err(BadIdent::BadPrivateTag(row, low16(col + 1 + n)))
        } else {
            Ok(decode_utf8(bytes.take(1 + n)))
        },
        None => Err(BadIdent::BadPrivateTag(row, low16(col + 1))),
    }
}

/// What an identifier comes to where a dot follows its first name, which ends at `end`.
pub open spec fn dotted(bytes: Seq<u8>, end: int, uppercase: bool, row: Row, col: Col) -> Result<
    (u16, IdentView),
    (u16, BadIdent),
> {
    // modules come first, and count up to 16 bits of bytes behind the first name
    let module_end = end + if uppercase {
        low16(module_chain(bytes.skip(end)))
    } else {
        0
    };
    let module_name = if uppercase {
        decode_utf8(bytes.take(module_end))
    } else {
        seq![]
    };
    let first_part = if uppercase {
        seq![]
    } else {
        seq![decode_utf8(bytes.take(end))]
    };
    let chain = access_chain(bytes.skip(module_end));
    let parts = first_part + chain.names;
    let stopped = if chain.stray_dot {
        low16(chain.width + 1)
    } else {
        0
    };
    if chain.width > 0 && !chain.stray_dot {
        Ok((low16(module_end + chain.width), IdentView::Access { module_name, parts }))
    } else if uppercase && stopped == 0 {
        Err((low16(module_end), BadIdent::QualifiedTag(row, low16(module_end + col))))
    } else if stopped == 1 && parts.len() == 0 {
        Err((low16(module_end + 1), BadIdent::WeirdDotQualified(row, low16(module_end + col + 1))))
    } else {
        Err(
            (
                low16(module_end + stopped),
                BadIdent::WeirdDotAccess(row, low16(module_end + col + stopped)),
            ),
        )
    }
}

/// The identifier that `bytes` starts with and its width, or how far it goes before it is
/// wrong and what is wrong with it. Widths and columns are kept in 16 bits.
pub open spec fn identifier_chain(bytes: Seq<u8>, row: Row, col: Col) -> Result<
    (u16, IdentView),
    (u16, BadIdent),
> {
    if has_at(bytes, 0, DOT) {
        match accessor(bytes.skip(1), row, col) {
            Ok(name) => Ok(
                (low16(1 + byte_len(name)), IdentView::AccessorFunction(name)),
            ),
            Err(problem) => Err((1, problem)),
        }
    } else if has_at(bytes, 0, AT) {
        match private_tag(bytes, row, col) {
            Ok(name) => Ok((low16(byte_len(name)), IdentView::PrivateTag(name))),
            Err(problem) => Err((1, problem)),
        }
    } else {
        match alphabetic_part(bytes) {
            Some(end) => {
                let name = decode_utf8(bytes.take(end));
                let uppercase = is_uppercase(name[0]);
                if has_at(bytes, end, DOT) {
                    dotted(bytes, end, uppercase, row, col)
                } else if has_at(bytes, end, UNDERSCORE) {
                    Err((low16(end + 1), BadIdent::Underscore(row, low16(col + end + 1))))
                } else if uppercase {
                    Ok((low16(end), IdentView::GlobalTag(name)))
                } else {
                    Ok(
                        (
                            low16(end),
                            IdentView::Access { module_name: seq![], parts: seq![name] },
                        ),
                    )
                }
            },
            None => Err((0, BadIdent::Start(row, col))),
        }
    }
}

/// An ASCII character in front of UTF-8 text makes UTF-8 text.
pub proof fn lemma_ascii_then_text(bytes: Seq<u8>, n: int)
    requires
        1 <= n <= bytes.len(),
        bytes[0] <= 0x7f,
        valid_utf8(bytes.skip(1).take(n - 1)),
    ensures
        valid_utf8(bytes.take(n)),
        decode_utf8(bytes.take(n)) == seq![bytes[0] as char] + decode_utf8(
            bytes.skip(1).take(n - 1),
        ),
{
    lemma_first_char_ascii(bytes);
    lemma_one_char_first(bytes, bytes[0] as char, 1, n);
    assert(bytes.take(n).skip(1) == bytes.skip(1).take(n - 1));
}

/// An access chain stays within the bytes, its stray dot included.
pub proof fn lemma_access_chain(bytes: Seq<u8>)
    ensures
        0 <= access_chain(bytes).width <= bytes.len(),
        access_chain(bytes).stray_dot ==> access_chain(bytes).width < bytes.len(),
        access_chain(bytes).width == 0 ==> access_chain(bytes).names.len() == 0,
    decreases bytes.len(),
{
    if has_at(bytes, 0, DOT) {
        if let Some(n) = lowercase_part(bytes.skip(1)) {
            lemma_part(bytes.skip(1), lowercase());
            lemma_access_chain(bytes.skip(1 + n));
        }
    }
}

/// An identifier ends within the bytes, and so does what is read before one goes wrong. Where
/// anything was read, the problem lies with what follows the start.
pub proof fn lemma_chain_width(bytes: Seq<u8>, row: Row, col: Col)
    ensures
        match identifier_chain(bytes, row, col) {
            Ok((width, _)) => width <= bytes.len(),
            Err((width, problem)) => {
                &&& width <= bytes.len()
                &&& width > 0 ==> !(problem is Start) && !(problem is Space)
            },
        },
{
    lemma_part(bytes, alphabetic());
    if has_at(bytes, 0, DOT) {
        lemma_part(bytes.skip(1), lowercase());
        if let Ok(name) = accessor(bytes.skip(1), row, col) {
            decode_utf8_encode_utf8(bytes.skip(1).take(lowercase_part(bytes.skip(1))->0));
            lemma_low16_small(1 + byte_len(name));
        }
    } else if has_at(bytes, 0, AT) {
        lemma_part(bytes.skip(1), uppercase());
        if let Ok(name) = private_tag(bytes, row, col) {
            lemma_ascii_then_text(bytes, 1 + uppercase_part(bytes.skip(1))->0);
            decode_utf8_encode_utf8(bytes.take(1 + uppercase_part(bytes.skip(1))->0));
            lemma_low16_small(byte_len(name));
        }
    } else if let Some(end) = alphabetic_part(bytes) {
        lemma_low16_small(end);
        lemma_low16_small(end + 1);
        lemma_module_chain(bytes.skip(end));
        lemma_low16_small(module_chain(bytes.skip(end)));
        let uppercase = is_uppercase(decode_utf8(bytes.take(end))[0]);
        let module_end = end + if uppercase {
            low16(module_chain(bytes.skip(end)))
        } else {
            0
        };
        let chain = access_chain(bytes.skip(module_end));
        lemma_access_chain(bytes.skip(module_end));
        lemma_low16_small(module_end);
        lemma_low16_small(module_end + 1);
        lemma_low16_small(chain.width + 1);
        lemma_low16_small(module_end + chain.width);
        lemma_low16_small(module_end + low16(chain.width + 1));
    }
}

/// The index of the last dot in `bytes`.
pub open spec fn last_dot(bytes: Seq<u8>) -> Option<int>
    decreases bytes.len(),
{
    if bytes.len() == 0 {
        None
    } else if bytes.last() == DOT {
        Some(bytes.len() - 1)
    } else {
        last_dot(bytes.drop_last())
    }
}

/// The type name that `bytes` starts with, like `Result` or `Result.Result`, taken apart at
/// its last dot into module and type, and its width. A dot that no uppercase name follows is
/// an error, and so is a name of which 16 bits of width cut a character in two.
pub open spec fn concrete_name(bytes: Seq<u8>) -> Result<(Seq<char>, Seq<char>, int), Progress> {
    match uppercase_part(bytes) {
        Some(first) => {
            let chain = module_chain(bytes.skip(first));
            let width = first + low16(chain);
            if !has_at(bytes, first, DOT) {
                Ok((seq![], decode_utf8(bytes.take(first)), first))
            } else if chain == 0 || has_at(bytes, width, DOT) {
                Err(Progress::MadeProgress)
            } else {
                match last_dot(bytes.take(width)) {
                    Some(dot) => if valid_utf8(bytes.subrange(dot + 1, width)) {
                        Ok(
                            (
                                decode_utf8(bytes.take(dot)),
                                decode_utf8(bytes.subrange(dot + 1, width)),
                                width,
                            ),
                        )
                    } else {
                        Err(Progress::MadeProgress)
                    },
                    None => Ok((seq![], decode_utf8(bytes.take(first)), first)),
                }
            }
        },
        None => Err(Progress::NoProgress),
    }
}

} // verus!
