//! The ways in which resolving a span can fail.

use vstd::prelude::*;
use vstd::string::*;

verus! {

/// Why an operation could not produce an output for a line.
#[derive(Clone, Copy, Debug, PartialEq, Eq, Structural)]
pub enum SpanError {
    /// A computed offset lies outside the line.
    OutOfBounds,
    /// The two ends of a span come in the wrong order.
    Misordered,
    /// An offset falls inside the encoding of a character.
    InsideChar,
}

impl SpanError {
    /// The one line that reports this failure.
    pub open spec fn diagnostic_text(self) -> Seq<char> {
        match self {
            SpanError::OutOfBounds => "Offset exits bounds of input"@,
            SpanError::Misordered => "Span ends before it starts"@,
            SpanError::InsideChar => "Offset falls inside a character"@,
        }
    }

    /// The one line that reports this failure.
    pub fn diagnostic(&self) -> (r: String)
        ensures
            r@ == self.diagnostic_text(),
    {
        match self {
            SpanError::OutOfBounds => "Offset exits bounds of input".to_owned(),
            SpanError::Misordered => "Span ends before it starts".to_owned(),
            SpanError::InsideChar => "Offset falls inside a character".to_owned(),
        }
    }
}

} // verus!
