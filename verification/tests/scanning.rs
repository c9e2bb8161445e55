use bumpalo::Bump;
use roc_parse::ident::{
    chomp_access_chain, chomp_accessor, chomp_concrete_type, chomp_identifier_chain,
    chomp_lowercase_part, chomp_malformed, chomp_module_chain, chomp_part, chomp_private_tag,
    chomp_uppercase_part, BadIdent, Ident,
};
use roc_parse::parser::Progress;
use roc_parse::state::State;

#[test]
fn every_ascii_character() {
    for byte in 0..128u8 {
        let bytes = [byte];
        let lower = (b'a'..=b'z').contains(&byte);
        let upper = (b'A'..=b'Z').contains(&byte);
        let digit = (b'0'..=b'9').contains(&byte);
        assert_eq!(chomp_lowercase_part(&bytes).is_ok(), lower);
        assert_eq!(chomp_uppercase_part(&bytes).is_ok(), upper);
        let malformed = lower || upper || digit || byte == b'.' || byte == b'_';
        assert_eq!(chomp_malformed(&bytes), malformed as usize);
        let behind = [b'a', byte];
        let width = if lower || upper || digit { 2 } else { 1 };
        assert_eq!(chomp_lowercase_part(&behind).unwrap().len(), width);
    }
}

#[test]
fn malformed_goes_on_to_the_next_other_character() {
    assert_eq!(chomp_malformed(b""), 0);
    assert_eq!(chomp_malformed(b" foo"), 0);
    assert_eq!(chomp_malformed(b"foo bar"), 3);
    assert_eq!(chomp_malformed(b"_.9foo.Bar_@"), 11);
    assert_eq!(chomp_malformed("é京¾".as_bytes()), 5);
    assert_eq!(chomp_malformed(b"ab\xc3"), 2);
    assert_eq!(chomp_malformed(b"a.\xff"), 2);
}

#[test]
fn parts_start_as_the_caller_says() {
    assert_eq!(chomp_part(|c: char| c == 'x', b"xyz 1"), Ok("xyz"));
    assert_eq!(chomp_part(|c: char| c == 'y', b"xyz 1"), Err(Progress::NoProgress));
    assert_eq!(chomp_part(|c: char| c == '_', b"_a1_"), Ok("_a1"));
    assert_eq!(chomp_part(|_: char| true, "¾¾".as_bytes()), Ok("¾"));
    assert_eq!(chomp_part(|_: char| true, b""), Err(Progress::NoProgress));
    assert_eq!(chomp_part(|_: char| true, b"\xffabc"), Err(Progress::NoProgress));
    assert_eq!(chomp_part(|_: char| false, b"abc"), Err(Progress::NoProgress));
}

#[test]
fn parts_of_one_case() {
    assert_eq!(chomp_lowercase_part(b"fooBar.x"), Ok("fooBar"));
    assert_eq!(chomp_lowercase_part(b"Foo"), Err(Progress::NoProgress));
    assert_eq!(chomp_uppercase_part(b"FooBar.x"), Ok("FooBar"));
    assert_eq!(chomp_uppercase_part(b"foo"), Err(Progress::NoProgress));
    assert_eq!(chomp_lowercase_part("ß1".as_bytes()), Ok("ß1"));
    assert_eq!(chomp_uppercase_part("Ω1".as_bytes()), Ok("Ω1"));
}

#[test]
fn accessors_behind_their_dot() {
    assert_eq!(chomp_accessor(b"foo x", 1, 2), Ok("foo"));
    assert_eq!(chomp_accessor(b"foo.x", 1, 2), Err(BadIdent::WeirdAccessor(1, 2)));
    assert_eq!(chomp_accessor(b"Foo", 1, 2), Err(BadIdent::StrayDot(1, 3)));
    assert_eq!(chomp_accessor(b"", 1, 65535), Err(BadIdent::StrayDot(1, 0)));
}

#[test]
fn private_tags_with_their_sign() {
    assert_eq!(chomp_private_tag(b"@Foo x", 1, 2), Ok("@Foo"));
    assert_eq!(chomp_private_tag(b"@Foo.x", 1, 2), Err(BadIdent::BadPrivateTag(1, 6)));
    assert_eq!(chomp_private_tag(b"@", 1, 2), Err(BadIdent::BadPrivateTag(1, 3)));
    assert_eq!(chomp_private_tag(b"@Foo.x", 1, 65534), Err(BadIdent::BadPrivateTag(1, 2)));
}

#[test]
fn module_chains() {
    assert_eq!(chomp_module_chain(b".Foo.Bar.baz"), Ok(8));
    assert_eq!(chomp_module_chain(b".Foo"), Ok(4));
    assert_eq!(chomp_module_chain(b".Foo."), Ok(4));
    assert_eq!(chomp_module_chain(b".foo"), Err(Progress::NoProgress));
    assert_eq!(chomp_module_chain(b"."), Err(Progress::NoProgress));
    assert_eq!(chomp_module_chain(b"Foo"), Err(Progress::NoProgress));
    assert_eq!(chomp_module_chain(b""), Err(Progress::NoProgress));
}

#[test]
fn access_chains_add_to_a_list() {
    let arena = Bump::new();
    let mut parts = bumpalo::collections::Vec::new_in(&arena);
    parts.push("x");
    assert_eq!(chomp_access_chain(b".a.bc d", &mut parts), Ok(5));
    assert_eq!(parts.as_slice(), ["x", "a", "bc"]);
    assert_eq!(chomp_access_chain(b"abc", &mut parts), Err(0));
    assert_eq!(chomp_access_chain(b"", &mut parts), Err(0));
    assert_eq!(parts.as_slice(), ["x", "a", "bc"]);
    assert_eq!(chomp_access_chain(b".d.e.", &mut parts), Err(5));
    assert_eq!(parts.as_slice(), ["x", "a", "bc", "d", "e"]);
    assert_eq!(chomp_access_chain(b".F", &mut parts), Err(1));
    assert_eq!(chomp_access_chain(b".g.h.i.j.k", &mut parts), Ok(10));
    assert_eq!(parts.as_slice(), ["x", "a", "bc", "d", "e", "g", "h", "i", "j", "k"]);
}

#[test]
fn identifier_chains_and_their_widths() {
    let arena = Bump::new();
    assert_eq!(
        chomp_identifier_chain(&arena, b"Foo.bar x", 1, 2),
        Ok((7, Ident::Access { module_name: "Foo", parts: &["bar"] }))
    );
    assert_eq!(
        chomp_identifier_chain(&arena, b"foo x", 1, 2),
        Ok((3, Ident::Access { module_name: "", parts: &["foo"] }))
    );
    assert_eq!(
        chomp_identifier_chain(&arena, b".foo x", 1, 2),
        Ok((4, Ident::AccessorFunction("foo")))
    );
    assert_eq!(
        chomp_identifier_chain(&arena, b"@Foo x", 1, 2),
        Ok((4, Ident::PrivateTag("@Foo")))
    );
    assert_eq!(
        chomp_identifier_chain(&arena, b"1", 1, 2),
        Err((0, BadIdent::Start(1, 2)))
    );
    assert_eq!(
        chomp_identifier_chain(&arena, b"@foo", 1, 2),
        Err((1, BadIdent::BadPrivateTag(1, 3)))
    );
    assert_eq!(
        chomp_identifier_chain(&arena, b"foo.bar.", 1, 2),
        Err((8, BadIdent::WeirdDotAccess(1, 10)))
    );
    assert_eq!(
        chomp_identifier_chain(&arena, b"Foo.Bar", 1, 2),
        Err((7, BadIdent::QualifiedTag(1, 9)))
    );
    // columns wrap around
    assert_eq!(
        chomp_identifier_chain(&arena, b"foo_", 1, 65535),
        Err((4, BadIdent::Underscore(1, 3)))
    );
}

#[test]
fn type_names_and_their_widths() {
    assert_eq!(chomp_concrete_type(b"Result x"), Ok(("", "Result", 6)));
    assert_eq!(chomp_concrete_type(b"Result.Result x"), Ok(("Result", "Result", 13)));
    assert_eq!(chomp_concrete_type(b"Result.x"), Err(Progress::MadeProgress));
    assert_eq!(chomp_concrete_type(b"result"), Err(Progress::NoProgress));
}

#[test]
fn states_move_within_a_line() {
    let state = State::new(b"foo bar");
    assert_eq!(state, State { bytes: b"foo bar", line: 0, column: 0 });
    assert_eq!(state.bytes(), b"foo bar");
    let next = state.advance_without_indenting_ee(4, |r: u32, c: u16| (r, c)).unwrap();
    assert_eq!(next, State { bytes: b"bar", line: 0, column: 4 });
    let last = State { bytes: b"foo", line: 9, column: 65533 };
    assert_eq!(
        last.advance_without_indenting_ee(2, |r: u32, c: u16| (r, c)),
        Ok(State { bytes: b"o", line: 9, column: 65535 })
    );
    assert_eq!(
        last.advance_without_indenting_ee(3, |r: u32, c: u16| (r, c)),
        Err((Progress::NoProgress, (9, 65533), last))
    );
}

#[test]
fn every_character_of_a_case_is_a_letter_of_one_case() {
    let mut lowercase = 0;
    let mut uppercase = 0;
    for c in '\u{0}'..=char::MAX {
        let mut buffer = [0u8; 4];
        let bytes = c.encode_utf8(&mut buffer).as_bytes();
        let lower = chomp_lowercase_part(bytes).is_ok();
        let upper = chomp_uppercase_part(bytes).is_ok();
        assert!(!(lower && upper), "{:?}", c);
        if lower || upper {
            assert_eq!(chomp_malformed(bytes), bytes.len(), "{:?}", c);
        }
        lowercase += lower as usize;
        uppercase += upper as usize;
    }
    assert!(lowercase > 26 && uppercase > 26);
}
