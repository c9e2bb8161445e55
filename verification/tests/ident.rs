use bumpalo::Bump;
use roc_parse::ident::{parse_ident, BadIdent, Ident};
use roc_parse::parser::{BadInputError, EExpr, Progress};
use roc_parse::state::State;

fn at(bytes: &[u8], line: u32, column: u16) -> State<'_> {
    State { bytes, line, column }
}

/// Parses at line 3, column 10, and checks the identifier and what is left.
fn check(text: &str, expected: Ident, rest: &str) {
    let arena = Bump::new();
    let (progress, ident, next) = parse_ident(&arena, at(text.as_bytes(), 3, 10)).unwrap();
    assert_eq!(progress, Progress::MadeProgress);
    assert_eq!(ident, expected);
    let width = text.len() - rest.len();
    assert_eq!(next, at(rest.as_bytes(), 3, 10 + width as u16));
}

fn check_access(text: &str, module_name: &str, parts: &[&str], rest: &str) {
    check(text, Ident::Access { module_name, parts }, rest);
}

fn check_malformed(text: &str, malformed: &str, problem: BadIdent) {
    check(text, Ident::Malformed(malformed, problem), &text[malformed.len()..]);
}

fn check_no_start(bytes: &[u8]) {
    let arena = Bump::new();
    let state = at(bytes, 3, 10);
    assert_eq!(
        parse_ident(&arena, state),
        Err((Progress::NoProgress, EExpr::Start(3, 10), state))
    );
}

#[test]
fn global_tags() {
    check("Foo", Ident::GlobalTag("Foo"), "");
    check("Foo = 1", Ident::GlobalTag("Foo"), " = 1");
    check("B", Ident::GlobalTag("B"), "");
    check("Foo2Bar3,", Ident::GlobalTag("Foo2Bar3"), ",");
    check("Élan ", Ident::GlobalTag("Élan"), " ");
}

#[test]
fn private_tags() {
    check("@Foo", Ident::PrivateTag("@Foo"), "");
    check("@Foo2 bar", Ident::PrivateTag("@Foo2"), " bar");
    check("@Bar_baz", Ident::PrivateTag("@Bar"), "_baz");
    check("@Bar@Baz", Ident::PrivateTag("@Bar"), "@Baz");
}

#[test]
fn accesses() {
    check_access("foo", "", &["foo"], "");
    check_access("x1 = 2", "", &["x1"], " = 2");
    check_access("foo.bar", "", &["foo", "bar"], "");
    check_access("foo.bar.baz + 1", "", &["foo", "bar", "baz"], " + 1");
    check_access("Foo.bar", "Foo", &["bar"], "");
    check_access("Foo.Bar.baz.qux", "Foo.Bar", &["baz", "qux"], "");
    check_access("A.B.C.d}", "A.B.C", &["d"], "}");
}

#[test]
fn accessor_functions() {
    check(".foo { foo: 42 }", Ident::AccessorFunction("foo"), " { foo: 42 }");
    check(".x1", Ident::AccessorFunction("x1"), "");
    check(".foo_bar", Ident::AccessorFunction("foo"), "_bar");
}

#[test]
fn more_names_than_a_list_starts_with() {
    check_access(
        "a.b.c.d.e.f.g.h.i.j",
        "",
        &["a", "b", "c", "d", "e", "f", "g", "h", "i", "j"],
        "",
    );
    check_access("M.a.b.c.d.e.f", "M", &["a", "b", "c", "d", "e", "f"], "");
}

#[test]
fn underscores_stop_a_chain_of_fields() {
    check_access("foo.bar_baz", "", &["foo", "bar"], "_baz");
    check_access("Foo.bar_", "Foo", &["bar"], "_");
}

#[test]
fn malformed_stray_dot() {
    check_malformed(".Foo", ".Foo", BadIdent::StrayDot(3, 11));
    check_malformed(". foo", ".", BadIdent::StrayDot(3, 11));
    check_malformed("..foo ", "..foo", BadIdent::StrayDot(3, 11));
    check_malformed(".1", ".1", BadIdent::StrayDot(3, 11));
}

#[test]
fn malformed_weird_accessor() {
    check_malformed(".foo.bar", ".foo.bar", BadIdent::WeirdAccessor(3, 10));
    check_malformed(".foo. x", ".foo.", BadIdent::WeirdAccessor(3, 10));
    check_malformed(".foo.Bar", ".foo.Bar", BadIdent::WeirdAccessor(3, 10));
}

#[test]
fn malformed_weird_dot_access() {
    check_malformed("foo.", "foo.", BadIdent::WeirdDotAccess(3, 14));
    check_malformed("foo.Bar", "foo.Bar", BadIdent::WeirdDotAccess(3, 14));
    check_malformed("foo..bar", "foo..bar", BadIdent::WeirdDotAccess(3, 14));
    check_malformed("foo.bar. x", "foo.bar.", BadIdent::WeirdDotAccess(3, 18));
    check_malformed("Foo.bar.", "Foo.bar.", BadIdent::WeirdDotAccess(3, 18));
    check_malformed("Foo.bar.Baz", "Foo.bar.Baz", BadIdent::WeirdDotAccess(3, 18));
}

#[test]
fn malformed_weird_dot_qualified() {
    check_malformed("Foo.", "Foo.", BadIdent::WeirdDotQualified(3, 14));
    check_malformed("Foo..bar", "Foo..bar", BadIdent::WeirdDotQualified(3, 14));
    check_malformed("Foo.Bar.", "Foo.Bar.", BadIdent::WeirdDotQualified(3, 18));
    check_malformed("Foo.1", "Foo.1", BadIdent::WeirdDotQualified(3, 14));
}

#[test]
fn malformed_qualified_tag() {
    check_malformed("Foo.Bar", "Foo.Bar", BadIdent::QualifiedTag(3, 17));
    check_malformed("Foo.Bar.Baz x", "Foo.Bar.Baz", BadIdent::QualifiedTag(3, 21));
    check_malformed("Foo.Bar_baz", "Foo.Bar_baz", BadIdent::QualifiedTag(3, 17));
}

#[test]
fn malformed_private_tag() {
    check_malformed("@foo", "@foo", BadIdent::BadPrivateTag(3, 11));
    check_malformed("@ Foo", "@", BadIdent::BadPrivateTag(3, 11));
    check_malformed("@Foo.bar", "@Foo.bar", BadIdent::BadPrivateTag(3, 14));
    check_malformed("@Foo.", "@Foo.", BadIdent::BadPrivateTag(3, 14));
}

#[test]
fn malformed_underscore() {
    check_malformed("foo_bar", "foo_bar", BadIdent::Underscore(3, 14));
    check_malformed("Foo_", "Foo_", BadIdent::Underscore(3, 14));
    check_malformed("foo_bar.Baz_1 x", "foo_bar.Baz_1", BadIdent::Underscore(3, 14));
    check_malformed("if_x", "if_x", BadIdent::Underscore(3, 13));
}

#[test]
fn nothing_to_start_with() {
    check_no_start(b"");
    check_no_start(b" foo");
    check_no_start(b"1foo");
    check_no_start(b"_foo");
    check_no_start(b"\"foo\"");
    check_no_start("¾".as_bytes());
}

#[test]
fn bytes_that_are_not_utf8() {
    // no character starts with these
    check_no_start(b"\xff");
    check_no_start(b"\x80foo");
    // too short, overlong, a surrogate, and past the last code point
    check_no_start(b"\xc3");
    check_no_start(b"\xc1\x81");
    check_no_start(b"\xed\xa0\x80");
    check_no_start(b"\xf4\x90\x80\x80");
    // an identifier ends in front of them
    let arena = Bump::new();
    let (_, ident, next) = parse_ident(&arena, State::new(b"fo\xffo")).unwrap();
    assert_eq!(ident, Ident::Access { module_name: "", parts: &["fo"] });
    assert_eq!(next, at(b"\xffo", 0, 2));
    let (_, ident, next) = parse_ident(&arena, State::new(b"fo_\xc3")).unwrap();
    assert_eq!(ident, Ident::Malformed("fo_", BadIdent::Underscore(0, 3)));
    assert_eq!(next, at(b"\xc3", 0, 3));
}

#[test]
fn letters_past_ascii() {
    check_access("épée.été x", "", &["épée", "été"], " x");
    check_access("Éa.Öb.üc", "Éa.Öb", &["üc"], "");
    check("@Élan", Ident::PrivateTag("@Élan"), "");
    check(".été", Ident::AccessorFunction("été"), "");
    // letters of neither case
    check_access("京都", "", &["京都"], "");
    check_access("ǅa", "", &["ǅa"], "");
    check_malformed("foo.京", "foo.京", BadIdent::WeirdDotAccess(3, 14));
    check_malformed(".京", ".京", BadIdent::StrayDot(3, 11));
    // columns count bytes
    check_malformed("éé_a", "éé_a", BadIdent::Underscore(3, 15));
    // four bytes
    check_access("𐐨b", "", &["𐐨b"], "");
    check("𐐀b", Ident::GlobalTag("𐐀b"), "");
}

#[test]
fn numbers_that_are_not_ascii_digits() {
    check_access("a¾", "", &["a"], "¾");
    check_access("a1\u{661}", "", &["a1"], "\u{661}");
    check_malformed("a_1¾", "a_1", BadIdent::Underscore(3, 12));
}

#[test]
fn keywords_start_no_expression() {
    for word in ["if", "then", "else", "when", "as", "is", "expect"] {
        check_no_start(word.as_bytes());
        check_no_start(format!("{} x", word).as_bytes());
        check_no_start(format!("{}.foo", word).as_bytes());
        // a keyword behind the first name, or in a longer name, is a name
        check_access(&format!("foo.{}", word), "", &["foo", word], "");
        check_access(&format!("Foo.{}", word), "Foo", &[word], "");
        let longer = format!("{}x", word);
        check_access(&longer, "", &[&longer], "");
        check(&format!(".{}", word), Ident::AccessorFunction(word), "");
    }
    check("If", Ident::GlobalTag("If"), "");
}

#[test]
fn a_line_as_long_as_columns_can_count() {
    let arena = Bump::new();
    let (_, ident, next) = parse_ident(&arena, at(b"foo x", 7, 65532)).unwrap();
    assert_eq!(ident, Ident::Access { module_name: "", parts: &["foo"] });
    assert_eq!(next, at(b" x", 7, 65535));
}

#[test]
fn a_line_too_long_for_an_identifier() {
    let arena = Bump::new();
    let state = at(b"foo x", 7, 65533);
    assert_eq!(
        parse_ident(&arena, state),
        Err((Progress::NoProgress, EExpr::Start(7, 65533), state))
    );
    let state = at(b"foo_bar", 7, 65532);
    assert_eq!(
        parse_ident(&arena, state),
        Err((Progress::NoProgress, EExpr::Start(7, 65532), state))
    );
}

#[test]
fn a_line_too_long_for_the_rest_of_a_malformed_identifier() {
    let arena = Bump::new();
    assert_eq!(
        parse_ident(&arena, at(b"foo_bar x", 7, 65530)),
        Err((
            Progress::NoProgress,
            EExpr::Space(BadInputError::LineTooLong, 7, 65534),
            at(b"bar x", 7, 65534),
        ))
    );
}

#[test]
fn widths_keep_16_bits() {
    let arena = Bump::new();
    let long = "a".repeat(65541);
    let (progress, ident, next) = parse_ident(&arena, State::new(long.as_bytes())).unwrap();
    assert_eq!(progress, Progress::MadeProgress);
    assert_eq!(ident, Ident::Access { module_name: "", parts: &[&long] });
    assert_eq!(next, at(&long.as_bytes()[5..], 0, 5));

    let (_, ident, next) = parse_ident(&arena, State::new(&long.as_bytes()[..65535])).unwrap();
    assert_eq!(ident, Ident::Access { module_name: "", parts: &[&long[..65535]] });
    assert_eq!(next, at(b"", 0, 65535));
}

#[test]
fn a_width_that_stops_within_a_character() {
    let arena = Bump::new();
    let mut text = "é".repeat(40000);
    text.push('_');
    // 80001 - 65536
    let stopped = at(&text.as_bytes()[14465..], 0, 14465);
    assert_eq!(
        parse_ident(&arena, State::new(text.as_bytes())),
        Err((
            Progress::NoProgress,
            EExpr::Space(BadInputError::LineTooLong, 0, 14465),
            stopped,
        ))
    );
}

#[test]
fn lengths_of_identifiers() {
    assert_eq!(Ident::GlobalTag("Foo").len(), 3);
    assert_eq!(Ident::PrivateTag("@Foo").len(), 4);
    assert_eq!(Ident::AccessorFunction("foo").len(), 3);
    assert_eq!(Ident::Malformed("foo.Bar", BadIdent::WeirdDotAccess(0, 4)).len(), 7);
    assert_eq!(Ident::Access { module_name: "", parts: &["foo"] }.len(), 3);
    assert_eq!(Ident::Access { module_name: "", parts: &["foo", "ba"] }.len(), 6);
    assert_eq!(Ident::Access { module_name: "Foo.Bar", parts: &["baz", "qux"] }.len(), 15);
    assert_eq!(Ident::Access { module_name: "Foo", parts: &[] }.len(), 3);
    assert_eq!(Ident::GlobalTag("Élan").len(), 5);
}

#[test]
fn empty_identifiers() {
    assert!(Ident::GlobalTag("").is_empty());
    assert!(Ident::AccessorFunction("").is_empty());
    assert!(Ident::Access { module_name: "", parts: &[""] }.is_empty());
    assert!(!Ident::Access { module_name: "", parts: &["", ""] }.is_empty());
    assert!(!Ident::PrivateTag("@").is_empty());
    assert!(!Ident::Malformed(".", BadIdent::StrayDot(0, 1)).is_empty());
}
