//! What each parser makes of an input.
use vstd::prelude::*;
use vstd::utf8::{decode_utf8, valid_utf8};
use crate::grammar::{
    alphabetic_part, byte_len, concrete_name, has_at, identifier_chain, lowercase_part,
    malformed_chars, private_tag, run, uppercase_part, AT,
};
use crate::ident::{BadIdent, IdentView};
use crate::keyword::is_keyword;
use crate::parser::{BadInputError, EExpr, Outcome, Progress};
use crate::state::{advanced, StateView};

verus! {

/// Moves over `width` bytes and gives back `output`. Where the line gets too long, nothing is
/// parsed.
pub open spec fn moved<Output>(state: StateView, width: int, output: Output) -> Outcome<
    Output,
    (),
> {
    match advanced(state, width) {
        Some(next) => Ok((Progress::MadeProgress, output, next)),
        None => Err((Progress::NoProgress, (), state)),
    }
}

/// The name that the first `width` bytes encode.
pub open spec fn name_at(state: StateView, width: int) -> Seq<char> {
    decode_utf8(state.bytes.take(width))
}

/// A lowercase name that is no keyword. A keyword is no progress.
pub open spec fn lowercase_ident_outcome(state: StateView) -> Outcome<Seq<char>, ()> {
    match lowercase_part(state.bytes) {
        Some(n) => if is_keyword(name_at(state, n)) {
            Err((Progress::NoProgress, (), state))
        } else {
            moved(state, n, name_at(state, n))
        },
        None => Err((Progress::NoProgress, (), state)),
    }
}

/// An uppercase name.
pub open spec fn uppercase_ident_outcome(state: StateView) -> Outcome<Seq<char>, ()> {
    match uppercase_part(state.bytes) {
        Some(n) => moved(state, n, name_at(state, n)),
        None => Err((Progress::NoProgress, (), state)),
    }
}

/// A name of either case that is no keyword. A keyword is progress.
pub open spec fn unqualified_ident_outcome(state: StateView) -> Outcome<Seq<char>, ()> {
    match alphabetic_part(state.bytes) {
        Some(n) => if is_keyword(name_at(state, n)) {
            Err((Progress::MadeProgress, (), state))
        } else {
            moved(state, n, name_at(state, n))
        },
        None => Err((Progress::NoProgress, (), state)),
    }
}

/// A private tag where the input starts with `@`, and an uppercase name otherwise.
pub open spec fn tag_name_outcome(state: StateView) -> Outcome<Seq<char>, ()> {
    if has_at(state.bytes, 0, AT) {
        match private_tag(state.bytes, state.line, state.column) {
            Ok(name) => moved(state, byte_len(name), name),
            Err(_) => Err((Progress::MadeProgress, (), state)),
        }
    } else {
        uppercase_ident_outcome(state)
    }
}

/// A type name and the module in front of it, which may be empty.
pub open spec fn concrete_type_outcome(state: StateView) -> Outcome<(Seq<char>, Seq<char>), ()> {
    match concrete_name(state.bytes) {
        Ok((module_name, name, width)) => moved(state, width, (module_name, name)),
        Err(progress) => Err((progress, (), state)),
    }
}

/// The line is too long at `state`.
pub open spec fn too_long<Output>(state: StateView) -> Outcome<Output, EExpr> {
    Err(
        (
            Progress::NoProgress,
            EExpr::Space(BadInputError::LineTooLong, state.line, state.column),
            state,
        ),
    )
}

/// No expression starts at `state`.
pub open spec fn no_start<Output>(state: StateView) -> Outcome<Output, EExpr> {
    Err((Progress::NoProgress, EExpr::Start(state.line, state.column), state))
}

/// An identifier that went wrong at `state`, `delta` bytes into `initial_bytes`: it takes all
/// that could still belong to it.
pub open spec fn malformed_outcome(
    initial_bytes: Seq<u8>,
    problem: BadIdent,
    state: StateView,
) -> Outcome<IdentView, EExpr> {
    let chomped = run(state.bytes, malformed_chars());
    let delta = initial_bytes.len() - state.bytes.len();
    let text = initial_bytes.take(chomped + delta);
    match advanced(state, chomped) {
        Some(next) => if valid_utf8(text) {
            Ok(
                (
                    Progress::MadeProgress,
                    IdentView::Malformed(decode_utf8(text), problem),
                    next,
                ),
            )
        } else {
            too_long(state)
        },
        None => too_long(state),
    }
}

/// An identifier, or what is wrong with it and how far it went.
pub open spec fn parse_ident_help_outcome(state: StateView) -> Outcome<IdentView, BadIdent> {
    let problem = BadIdent::Space(BadInputError::LineTooLong, state.line, state.column);
    match identifier_chain(state.bytes, state.line, state.column) {
        Ok((width, ident)) => match advanced(state, width as int) {
            Some(next) => Ok((Progress::MadeProgress, ident, next)),
            None => Err((Progress::NoProgress, problem, state)),
        },
        Err((width, fail)) => if width == 0 {
            Err((Progress::NoProgress, fail, state))
        } else {
            match advanced(state, width as int) {
                Some(next) => Err((Progress::MadeProgress, fail, next)),
                None => Err((Progress::NoProgress, problem, state)),
            }
        },
    }
}

/// Whether an identifier is a keyword, or starts with one and goes on with fields.
pub open spec fn is_keyword_access(ident: IdentView) -> bool {
    match ident {
        IdentView::Access { module_name, parts } => module_name.len() == 0 && parts.len() > 0
            && is_keyword(parts[0]),
        _ => false,
    }
}

/// An identifier that is no keyword, malformed or not.
pub open spec fn parse_ident_outcome(state: StateView) -> Outcome<IdentView, EExpr> {
    match parse_ident_help_outcome(state) {
        Ok((progress, ident, next)) => if is_keyword_access(ident) {
            no_start(state)
        } else {
            Ok((progress, ident, next))
        },
        Err((Progress::NoProgress, _, _)) => no_start(state),
        Err((Progress::MadeProgress, problem, next)) => malformed_outcome(
            state.bytes,
            problem,
            next,
        ),
    }
}

} // verus!
