//! What parsers take and give back.
use bumpalo::Bump;
use vstd::prelude::*;
use crate::state::{State, StateView};

verus! {

/// A line of the input, counted from 0.
pub type Row = u32;

/// A column of the input, counted from 0.
pub type Col = u16;

/// Whether a parser went forward in the input before it succeeded or failed.
#[derive(Debug, Clone, Copy, PartialEq, Eq)]
pub enum Progress {
    MadeProgress,
    NoProgress,
}

/// What makes an input bad as a whole.
#[derive(Debug, Clone, Copy, PartialEq, Eq)]
pub enum BadInputError {
    /// A column does not fit its 16 bits.
    LineTooLong,
}

/// What is wrong with an expression, and where.
#[derive(Debug, Clone, Copy, PartialEq, Eq)]
pub enum EExpr {
    /// No expression starts here.
    Start(Row, Col),
    Space(BadInputError, Row, Col),
}

/// A parser's output and where it stopped, or its error and where to go on from.
pub type ParseResult<'a, Output, Error> = Result<
    (Progress, Output, State<'a>),
    (Progress, Error, State<'a>),
>;

/// A parser's result by the texts that it holds.
pub type Outcome<Output, Error> = Result<
    (Progress, Output, StateView),
    (Progress, Error, StateView),
>;

/// A result by the texts that it holds.
pub open spec fn outcome<Output: View, Error>(result: ParseResult<Output, Error>) -> Outcome<
    Output::V,
    Error,
> {
    match result {
        Ok((progress, output, state)) => Ok((progress, output@, state@)),
        Err((progress, error, state)) => Err((progress, error, state@)),
    }
}

/// A parser reads some output off the start of its input.
pub trait Parser<'a, Output: View, Error> {
    /// What the parser makes of each input.
    spec fn parses_to(&self, state: StateView) -> Outcome<Output::V, Error>;

    /// Runs the parser.
    fn parse(&self, arena: &'a Bump, state: State<'a>) -> (result: ParseResult<'a, Output, Error>)
        ensures
            outcome(result) == self.parses_to(state@),
    ;
}

} // verus!
