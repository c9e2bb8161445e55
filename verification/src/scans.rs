//! What the scanners under the parsers read.
use vstd::prelude::*;
use vstd::utf8::encode_utf8;
use crate::grammar::{
    access_chain, alphabetic, alphabetic_part, has_at, lowercase, lowercase_part, module_chain,
    part, run, uppercase, uppercase_part, AccessChain, DOT,
};
use crate::text::{
    are_names, dots, goes_on, is_name, lemma_access_chain_of_text, lemma_module_chain_of_text,
    lemma_part_of_name, lemma_run_of_text, starts_with,
};

verus! {

/// A scan for a name takes a whole name where it cannot go on behind it, and finds none exactly
/// where the bytes do not start with a character of its class.
pub proof fn law_part_is_a_whole_name(
    name: Seq<char>,
    rest: Seq<u8>,
    leading: spec_fn(char) -> bool,
    bytes: Seq<u8>,
)
    requires
        is_name(name, leading),
        !goes_on(rest),
    ensures
        part(encode_utf8(name) + rest, leading) == Some(encode_utf8(name).len() as int),
        part(bytes, leading) is None <==> !starts_with(bytes, leading),
        lowercase_part(bytes) == part(bytes, lowercase()),
        uppercase_part(bytes) == part(bytes, uppercase()),
        alphabetic_part(bytes) == part(bytes, alphabetic()),
{
    lemma_part_of_name(name, rest, leading);
}

/// A scan over characters of a class takes a text of that class whole, and stops behind it where
/// no other character of the class follows.
pub proof fn law_run_is_a_whole_text(text: Seq<char>, rest: Seq<u8>, class: spec_fn(char) -> bool)
    requires
        forall|i: int| 0 <= i < text.len() ==> class(#[trigger] text[i]),
        !starts_with(rest, class),
    ensures
        run(encode_utf8(text) + rest, class) == encode_utf8(text).len(),
{
    lemma_run_of_text(text, rest, class);
}

/// A scan for modules takes uppercase names, each behind a dot, up to where no other follows.
pub proof fn law_module_chain_is_uppercase_names(names: Seq<Seq<char>>, rest: Seq<u8>)
    requires
        are_names(names, uppercase()),
        names.len() > 0 ==> !goes_on(rest),
        has_at(rest, 0, DOT) ==> !starts_with(rest.skip(1), uppercase()),
    ensures
        module_chain(encode_utf8(dots(names)) + rest) == encode_utf8(dots(names)).len(),
{
    if names.len() == 0 {
        assert(encode_utf8(dots(names)) + rest == rest);
    } else {
        lemma_module_chain_of_text(names, rest);
    }
}

/// A scan for fields takes lowercase names, each behind a dot, up to where no other follows. It
/// notes a dot behind them.
pub proof fn law_access_chain_is_lowercase_names(names: Seq<Seq<char>>, rest: Seq<u8>)
    requires
        are_names(names, lowercase()),
        names.len() > 0 ==> !goes_on(rest),
        has_at(rest, 0, DOT) ==> !starts_with(rest.skip(1), lowercase()),
    ensures
        access_chain(encode_utf8(dots(names)) + rest) == (AccessChain {
            names,
            width: encode_utf8(dots(names)).len() as int,
            stray_dot: has_at(rest, 0, DOT),
        }),
{
    if names.len() == 0 {
        assert(encode_utf8(dots(names)) + rest == rest);
        assert(access_chain(rest).names == names);
    } else {
        lemma_access_chain_of_text(names, rest);
    }
}

} // verus!
