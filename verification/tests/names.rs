use bumpalo::Bump;
use roc_parse::ident::{
    concrete_type, lowercase_ident, tag_name, unqualified_ident, uppercase_ident,
};
use roc_parse::keyword::{found_in_keywords, KEYWORDS};
use roc_parse::parser::{Parser, Progress};
use roc_parse::state::State;

fn state_at(bytes: &[u8], column: u16) -> State<'_> {
    State { bytes, line: 2, column }
}

fn reads<'a>(parser: impl Parser<'a, &'a str, ()>, arena: &'a Bump, text: &'a str, name: &str) {
    assert_eq!(
        parser.parse(arena, state_at(text.as_bytes(), 5)),
        Ok((
            Progress::MadeProgress,
            name,
            state_at(&text.as_bytes()[name.len()..], 5 + name.len() as u16),
        ))
    );
}

fn refuses<'a>(
    parser: impl Parser<'a, &'a str, ()>,
    arena: &'a Bump,
    text: &'a [u8],
    progress: Progress,
) {
    let state = state_at(text, 5);
    assert_eq!(parser.parse(arena, state), Err((progress, (), state)));
}

#[test]
fn lowercase_names() {
    let arena = Bump::new();
    reads(lowercase_ident(), &arena, "email: 1", "email");
    reads(lowercase_ident(), &arena, "foo = 1", "foo");
    reads(lowercase_ident(), &arena, "foo.bar", "foo");
    reads(lowercase_ident(), &arena, "foo_bar", "foo");
    reads(lowercase_ident(), &arena, "fooBar2¾", "fooBar2");
    reads(lowercase_ident(), &arena, "été", "été");
    reads(lowercase_ident(), &arena, "iff", "iff");
    for bad in ["", "Foo", "1a", "_a", ".a", "京", " a"] {
        refuses(lowercase_ident(), &arena, bad.as_bytes(), Progress::NoProgress);
    }
    refuses(lowercase_ident(), &arena, b"\xffa", Progress::NoProgress);
}

#[test]
fn a_lowercase_keyword_is_no_progress() {
    let arena = Bump::new();
    for word in KEYWORDS {
        refuses(lowercase_ident(), &arena, word.as_bytes(), Progress::NoProgress);
    }
    refuses(lowercase_ident(), &arena, b"if x", Progress::NoProgress);
    refuses(lowercase_ident(), &arena, b"when.foo", Progress::NoProgress);
}

#[test]
fn uppercase_names() {
    let arena = Bump::new();
    reads(uppercase_ident(), &arena, "Foo", "Foo");
    reads(uppercase_ident(), &arena, "Foo.Bar", "Foo");
    reads(uppercase_ident(), &arena, "Foo_Bar", "Foo");
    reads(uppercase_ident(), &arena, "X2y ", "X2y");
    reads(uppercase_ident(), &arena, "Été", "Été");
    reads(uppercase_ident(), &arena, "If", "If");
    for bad in ["", "foo", "@Foo", "1A", ".A", "京", "ǅa"] {
        refuses(uppercase_ident(), &arena, bad.as_bytes(), Progress::NoProgress);
    }
}

#[test]
fn unqualified_names() {
    let arena = Bump::new();
    reads(unqualified_ident(), &arena, "foo.bar", "foo");
    reads(unqualified_ident(), &arena, "Foo.bar", "Foo");
    reads(unqualified_ident(), &arena, "京都 ", "京都");
    reads(unqualified_ident(), &arena, "expected", "expected");
    for bad in ["", "1a", "_a", ".a", "@A", "¾"] {
        refuses(unqualified_ident(), &arena, bad.as_bytes(), Progress::NoProgress);
    }
}

#[test]
fn an_unqualified_keyword_is_progress() {
    let arena = Bump::new();
    for word in KEYWORDS {
        refuses(unqualified_ident(), &arena, word.as_bytes(), Progress::MadeProgress);
    }
    refuses(unqualified_ident(), &arena, b"else ", Progress::MadeProgress);
}

#[test]
fn tag_names() {
    let arena = Bump::new();
    reads(tag_name(), &arena, "Foo x", "Foo");
    reads(tag_name(), &arena, "Foo.bar", "Foo");
    reads(tag_name(), &arena, "@Foo x", "@Foo");
    reads(tag_name(), &arena, "@Foo_x", "@Foo");
    reads(tag_name(), &arena, "@Élan", "@Élan");
    for bad in ["", "foo", ".Foo", "1"] {
        refuses(tag_name(), &arena, bad.as_bytes(), Progress::NoProgress);
    }
    for bad in ["@", "@foo", "@Foo.bar", "@Foo.", "@@Foo"] {
        refuses(tag_name(), &arena, bad.as_bytes(), Progress::MadeProgress);
    }
}

#[test]
fn names_on_a_line_too_long() {
    let arena = Bump::new();
    let fits = state_at(b"foo ", 65532);
    assert_eq!(
        lowercase_ident().parse(&arena, fits),
        Ok((Progress::MadeProgress, "foo", state_at(b" ", 65535)))
    );
    let state = state_at(b"foo ", 65533);
    let expected = Err((Progress::NoProgress, (), state));
    assert_eq!(lowercase_ident().parse(&arena, state), expected);
    assert_eq!(unqualified_ident().parse(&arena, state), expected);
    let state = state_at(b"Foo ", 65533);
    let expected = Err((Progress::NoProgress, (), state));
    assert_eq!(uppercase_ident().parse(&arena, state), expected);
    assert_eq!(tag_name().parse(&arena, state), expected);
    let state = state_at(b"@Foo ", 65532);
    assert_eq!(tag_name().parse(&arena, state), Err((Progress::NoProgress, (), state)));
    let state = state_at(b"Foo.Bar", 65529);
    assert_eq!(concrete_type().parse(&arena, state), Err((Progress::NoProgress, (), state)));
    // a name is never cut short
    let long = "a".repeat(65536);
    let state = State::new(long.as_bytes());
    assert_eq!(lowercase_ident().parse(&arena, state), Err((Progress::NoProgress, (), state)));
}

fn reads_type(text: &str, module_name: &str, name: &str, rest: &str) {
    let arena = Bump::new();
    let width = text.len() - rest.len();
    assert_eq!(
        concrete_type().parse(&arena, state_at(text.as_bytes(), 5)),
        Ok((
            Progress::MadeProgress,
            (module_name, name),
            state_at(rest.as_bytes(), 5 + width as u16),
        ))
    );
}

#[test]
fn concrete_types() {
    reads_type("Result", "", "Result", "");
    reads_type("Result.Result", "Result", "Result", "");
    reads_type("Result a", "", "Result", " a");
    reads_type("A.Bc.Def x", "A.Bc", "Def", " x");
    reads_type("A.B_c", "A", "B", "_c");
    reads_type("Éa.Öb", "Éa", "Öb", "");
}

#[test]
fn concrete_types_that_are_none() {
    let arena = Bump::new();
    for (text, progress) in [
        ("", Progress::NoProgress),
        ("foo", Progress::NoProgress),
        (".Foo", Progress::NoProgress),
        ("@Foo", Progress::NoProgress),
        ("Foo.", Progress::MadeProgress),
        ("Foo.bar", Progress::MadeProgress),
        ("Foo.Bar.", Progress::MadeProgress),
        ("Foo.Bar.baz", Progress::MadeProgress),
        ("Foo..Bar", Progress::MadeProgress),
    ] {
        let state = state_at(text.as_bytes(), 5);
        assert_eq!(concrete_type().parse(&arena, state), Err((progress, (), state)));
    }
}

#[test]
fn concrete_types_keep_16_bits_of_the_chain() {
    let arena = Bump::new();
    // a chain of 65536 + 3 bytes counts as 3
    let long = format!("Foo.{}", "B".repeat(65538));
    let (_, (module_name, name), next) =
        concrete_type().parse(&arena, State::new(long.as_bytes())).unwrap();
    assert_eq!((module_name, name), ("Foo", "BB"));
    assert_eq!(next.column, 6);
    // a chain of 65536 bytes counts as none, which leaves its first dot as a trailing one
    let long = format!("Foo.{} x", "B".repeat(65535));
    let state = State::new(long.as_bytes());
    assert_eq!(
        concrete_type().parse(&arena, state),
        Err((Progress::MadeProgress, (), state))
    );
    // a width within a character of three bytes
    let long = format!("A.{}", "\u{1e00}".repeat(30000));
    let state = State::new(long.as_bytes());
    assert_eq!(
        concrete_type().parse(&arena, state),
        Err((Progress::MadeProgress, (), state))
    );
}

#[test]
fn the_keywords() {
    assert_eq!(KEYWORDS, ["if", "then", "else", "when", "as", "is", "expect"]);
    for word in KEYWORDS {
        assert!(found_in_keywords(word));
    }
    for word in ["", "i", "f", "If", "iff", "expec", "expects", "foo", "été"] {
        assert!(!found_in_keywords(word));
    }
}
