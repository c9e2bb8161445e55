//! Where a parser stands in its input.
use vstd::prelude::*;
use vstd::slice::slice_subrange;
use crate::parser::{Col, Progress, Row};

verus! {

/// The input that is left to parse, and the position at which it starts.
#[derive(Debug, Clone, Copy, PartialEq, Eq)]
pub struct State<'a> {
    pub bytes: &'a [u8],
    pub line: Row,
    pub column: Col,
}

/// A state by the bytes that it holds.
#[verifier::ext_equal]
pub struct StateView {
    pub bytes: Seq<u8>,
    pub line: Row,
    pub column: Col,
}

impl<'a> View for State<'a> {
    type V = StateView;

    open spec fn view(&self) -> StateView {
        StateView { bytes: self.bytes@, line: self.line, column: self.column }
    }
}

/// The state `quantity` bytes further on the same line. There is none where its column would
/// not fit 16 bits.
pub open spec fn advanced(state: StateView, quantity: int) -> Option<StateView> {
    if state.column + quantity <= u16::MAX {
        Some(
            StateView {
                bytes: state.bytes.skip(quantity),
                line: state.line,
                column: (state.column + quantity) as u16,
            },
        )
    } else {
        None
    }
}

impl<'a> State<'a> {
    /// The start of an input.
    pub fn new(bytes: &'a [u8]) -> (state: State<'a>)
        ensures
            state@ == (StateView { bytes: bytes@, line: 0, column: 0 }),
    {
        State { bytes, line: 0, column: 0 }
    }

    /// The bytes that are left to parse.
    pub fn bytes(&self) -> (bytes: &'a [u8])
        ensures
            bytes@ == self@.bytes,
    {
        self.bytes
    }

    /// Moves forward by `quantity` bytes, none of which ends a line. A column takes one byte.
    /// Where the column would not fit 16 bits the state stays, and `to_error` makes the error
    /// out of its position.
    pub fn advance_without_indenting_ee<TE, E>(self, quantity: usize, to_error: TE) -> (result:
        Result<State<'a>, (Progress, E, State<'a>)>) where TE: Fn(Row, Col) -> E
        requires
            quantity <= self@.bytes.len(),
            call_requires(to_error, (self.line, self.column)),
        ensures
            match result {
                Ok(next) => advanced(self@, quantity as int) == Some(next@),
                Err((progress, error, state)) => {
                    &&& advanced(self@, quantity as int) is None
                    &&& progress == Progress::NoProgress
                    &&& call_ensures(to_error, (self.line, self.column), error)
                    &&& state == self
                },
            },
    {
        if quantity <= (u16::MAX - self.column) as usize {
            let bytes = slice_subrange(self.bytes, quantity, self.bytes.len());
            Ok(State { bytes, line: self.line, column: self.column + quantity as u16 })
        } else {
            Err((Progress::NoProgress, to_error(self.line, self.column), self))
        }
    }
}

} // verus!
