use bumpalo::Bump;
use roc_parse::ident::{
    chomp_identifier_chain, concrete_type, lowercase_ident, parse_ident, tag_name,
    unqualified_ident, uppercase_ident, BadIdent, Ident,
};
use roc_parse::parser::{Parser, Progress};
use roc_parse::state::State;

/// The text of an identifier as it stands in the source.
fn text_of(ident: &Ident) -> String {
    match ident {
        Ident::GlobalTag(name) | Ident::PrivateTag(name) => name.to_string(),
        Ident::Access { module_name, parts } => {
            let mut names: Vec<&str> = parts.to_vec();
            if !module_name.is_empty() {
                names.insert(0, module_name);
            }
            names.join(".")
        }
        Ident::AccessorFunction(name) => format!(".{}", name),
        Ident::Malformed(text, _) => text.to_string(),
    }
}

const IDENTIFIERS: [&str; 18] = [
    "Foo", "@Foo", "foo", "foo.bar", "Foo.bar", "Foo.Bar.baz.qux", ".foo", ".Foo", "foo.",
    "foo.Bar", "Foo.", "Foo.Bar", ".foo.bar", "@foo", "@Foo.bar", "foo_bar", "éa.éb", "京_é",
];

#[test]
fn parsing_moves_over_the_text_and_nothing_else() {
    let arena = Bump::new();
    for text in IDENTIFIERS {
        let input = format!("{} {}", text, text);
        let (_, ident, next) = parse_ident(&arena, State::new(input.as_bytes())).unwrap();
        assert_eq!(text_of(&ident), text);
        assert_eq!(next.bytes(), &input.as_bytes()[text.len()..]);
        assert_eq!((next.line, next.column), (0, text.len() as u16));
    }
}

#[test]
fn lengths_count_the_text() {
    let arena = Bump::new();
    for text in IDENTIFIERS {
        let (_, ident, _) = parse_ident(&arena, State::new(text.as_bytes())).unwrap();
        let dot = matches!(ident, Ident::AccessorFunction(_)) as usize;
        assert_eq!(ident.len() + dot, text.len());
        assert!(!ident.is_empty());
    }
}

#[test]
fn the_position_makes_no_difference() {
    let arena = Bump::new();
    for text in IDENTIFIERS {
        let here = chomp_identifier_chain(&arena, text.as_bytes(), 0, 0);
        let there = chomp_identifier_chain(&arena, text.as_bytes(), 70000, 65535);
        match (here, there) {
            (Ok(one), Ok(other)) => assert_eq!(one, other),
            (Err((one, _)), Err((other, _))) => assert_eq!(one, other),
            _ => panic!("{}", text),
        }
    }
}

#[test]
fn both_parsers_of_tags_agree() {
    let arena = Bump::new();
    for text in ["Foo", "Foo x", "@Foo", "@Foo x", "Élan-", "@B2_"] {
        let state = State::new(text.as_bytes());
        let (_, tag, next) = tag_name().parse(&arena, state).unwrap();
        let (_, ident, end) = parse_ident(&arena, state).unwrap();
        assert!(matches!(ident, Ident::GlobalTag(_) | Ident::PrivateTag(_)));
        assert_eq!(text_of(&ident), tag);
        assert_eq!(next, end);
    }
}

#[test]
fn problems_lie_within_malformed_identifiers() {
    let arena = Bump::new();
    let mut problems = 0;
    for text in IDENTIFIERS {
        let state = State { bytes: text.as_bytes(), line: 4, column: 100 };
        if let (_, Ident::Malformed(_, problem), next) = parse_ident(&arena, state).unwrap() {
            let (row, col) = match problem {
                BadIdent::Start(row, col)
                | BadIdent::Space(_, row, col)
                | BadIdent::Underscore(row, col)
                | BadIdent::QualifiedTag(row, col)
                | BadIdent::WeirdAccessor(row, col)
                | BadIdent::WeirdDotAccess(row, col)
                | BadIdent::WeirdDotQualified(row, col)
                | BadIdent::StrayDot(row, col)
                | BadIdent::BadPrivateTag(row, col) => (row, col),
            };
            assert_eq!(row, 4);
            assert!(100 <= col && col <= next.column);
            problems += 1;
        }
    }
    assert_eq!(problems, 10);
}

#[test]
fn later_lines_do_not_count() {
    let arena = Bump::new();
    let later = "\nfoo.bar = 1".repeat(10000);
    for text in IDENTIFIERS {
        let input = format!("{}{}", text, later);
        let (_, ident, next) = parse_ident(&arena, State::new(input.as_bytes())).unwrap();
        assert_eq!(text_of(&ident), text);
        assert_eq!(next.bytes(), later.as_bytes());
    }
}

#[test]
fn unqualified_names_agree_with_names_of_either_case() {
    let arena = Bump::new();
    for text in ["foo", "foo.bar", "fooBar2 x", "été_", "iff", "ß"] {
        let state = State { bytes: text.as_bytes(), line: 4, column: 100 };
        let read = lowercase_ident().parse(&arena, state);
        assert!(read.is_ok());
        assert_eq!(unqualified_ident().parse(&arena, state), read);
    }
    for text in ["Foo", "Foo.bar", "FooBar2 x", "Été_", "If", "Ω"] {
        let state = State { bytes: text.as_bytes(), line: 4, column: 100 };
        let read = uppercase_ident().parse(&arena, state);
        assert!(read.is_ok());
        assert_eq!(unqualified_ident().parse(&arena, state), read);
    }
}

#[test]
fn unqualified_names_may_start_with_letters_of_neither_case() {
    let arena = Bump::new();
    for (text, name) in [("京都 x", "京都"), ("ǅa.b", "ǅa"), ("א1", "א1")] {
        let state = State { bytes: text.as_bytes(), line: 4, column: 100 };
        let refused = Err((Progress::NoProgress, (), state));
        assert_eq!(lowercase_ident().parse(&arena, state), refused);
        assert_eq!(uppercase_ident().parse(&arena, state), refused);
        let width = name.len();
        let next = State {
            bytes: &text.as_bytes()[width..],
            line: 4,
            column: 100 + width as u16,
        };
        assert_eq!(
            unqualified_ident().parse(&arena, state),
            Ok((Progress::MadeProgress, name, next))
        );
    }
    // at the end of a line that is too long all three refuse it
    let state = State { bytes: "京".as_bytes(), line: 4, column: 65533 };
    assert_eq!(
        unqualified_ident().parse(&arena, state),
        Err((Progress::NoProgress, (), state))
    );
}

/// Whether `name` is one uppercase name.
fn is_uppercase_name(name: &str) -> bool {
    name.chars().next().map_or(false, |c| c.is_uppercase())
        && name.chars().all(|c| c.is_alphabetic() || c.is_ascii_digit())
}

#[test]
fn types_are_uppercase_names_in_modules_of_uppercase_names() {
    let arena = Bump::new();
    for text in ["Result", "Result.Result", "A.Bc.D2 x", "Éa.Öb-", "A.B_.C"] {
        let (_, (module_name, name), next) =
            concrete_type().parse(&arena, State::new(text.as_bytes())).unwrap();
        assert!(is_uppercase_name(name));
        assert!(module_name.is_empty() || module_name.split('.').all(is_uppercase_name));
        let rest = std::str::from_utf8(next.bytes()).unwrap();
        let stop = rest.chars().next();
        assert!(stop.map_or(true, |c| c != '.' && !c.is_alphabetic() && !c.is_ascii_digit()));
    }
}

#[test]
fn names_are_what_the_input_starts_with() {
    let arena = Bump::new();
    for text in ["Foo.bar", "foo_bar", "@Foo_", "京2¾", "Été.", "ß9@"] {
        let state = State::new(text.as_bytes());
        for read in [
            lowercase_ident().parse(&arena, state),
            uppercase_ident().parse(&arena, state),
            unqualified_ident().parse(&arena, state),
            tag_name().parse(&arena, state),
        ] {
            if let Ok((_, name, next)) = read {
                let rest = text.strip_prefix(name).unwrap();
                assert_eq!(next.bytes(), rest.as_bytes());
                assert_eq!(next.column as usize, name.len());
                let stop = rest.chars().next().unwrap();
                assert!(!stop.is_alphabetic() && !stop.is_ascii_digit());
                let bare = name.strip_prefix('@').unwrap_or(name);
                assert!(bare.chars().all(|c| c.is_alphabetic() || c.is_ascii_digit()));
            }
        }
    }
    assert_eq!(tag_name().parse(&arena, State::new(b"@Foo_")).unwrap().1, "@Foo");
    assert_eq!(uppercase_ident().parse(&arena, State::new(b"Foo.bar")).unwrap().1, "Foo");
}
