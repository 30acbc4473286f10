//! Errors the byte stream and the tokenizer report, with exact positions.

use vstd::prelude::*;

verus! {

/// Position of an error.
///
/// Position indicates row/line and column. The starting position is 1:1.
#[derive(Clone, Copy, PartialEq, Eq, Structural, Debug)]
pub struct ErrorPos {
    pub row: usize,
    pub col: usize,
}

impl ErrorPos {
    /// Constructs a new error position.
    pub fn new(row: usize, col: usize) -> (p: ErrorPos)
        ensures
            p == (ErrorPos { row, col }),
    {
        ErrorPos { row, col }
    }
}

/// All errors of the stream and tokenizer layer.
#[derive(Clone, Copy, PartialEq, Eq, Structural, Debug)]
pub enum Error {
    /// The stream ended earlier than expected.
    ///
    /// Should only appear on invalid input data.
    UnexpectedEndOfStream(ErrorPos),
    /// An advance past the end of the stream was requested.
    InvalidAdvance {
        /// The requested target offset, saturated at the largest offset.
        expected: usize,
        /// Full length of the stream.
        total: usize,
        /// Absolute stream position.
        pos: ErrorPos,
    },
    /// Unsupported token.
    UnsupportedToken(ErrorPos),
    /// Unknown token.
    UnknownToken(ErrorPos),
}

} // verus!
