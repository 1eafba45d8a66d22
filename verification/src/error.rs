//! What can go wrong while a text is read.

use vstd::prelude::*;

verus! {

/// What went wrong while a text was read.
#[derive(Debug, PartialEq, Eq)]
pub enum ParseError {
    /// The text does not follow the grammar. `line` counts from one and is
    /// the first line that is neither blank, a comment nor a statement.
    Syntax { line: usize },
    /// A row of a matrix is not as long as the first row of that matrix.
    MismatchedRowLength { expected: usize, found: usize },
    /// The token is not a decimal numeral.
    ParseInvalidNumber(String),
}

/// A `ParseError` with its token as a sequence of characters.
pub enum ParseErrorView {
    Syntax { line: nat },
    MismatchedRowLength { expected: nat, found: nat },
    ParseInvalidNumber(Seq<char>),
}

impl View for ParseError {
    type V = ParseErrorView;

    open spec fn view(&self) -> ParseErrorView {
        match self {
            ParseError::Syntax { line } => ParseErrorView::Syntax { line: *line as nat },
            ParseError::MismatchedRowLength { expected, found } => {
                ParseErrorView::MismatchedRowLength {
                    expected: *expected as nat,
                    found: *found as nat,
                }
            },
            ParseError::ParseInvalidNumber(token) => ParseErrorView::ParseInvalidNumber(token@),
        }
    }
}

} // verus!
