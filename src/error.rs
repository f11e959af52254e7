//! The failures that parsing and the literal types report.
use vstd::prelude::*;

verus! {

/// What went wrong while reading or converting kJSON.
#[derive(Debug, Clone, PartialEq, Eq)]
pub enum Error {
    /// A structural defect in the input, at a character position.
    ParseError { position: usize, message: String },
    /// A number literal that cannot be read.
    InvalidNumber(String),
    /// A big integer literal that cannot be read.
    InvalidBigInt(String),
    /// A decimal literal that cannot be read.
    InvalidDecimal128(String),
    /// A UUID that cannot be read.
    InvalidUuid(String),
    /// A timestamp that cannot be read.
    InvalidDate(String),
    /// An instant that cannot be read.
    InvalidInstant(String),
    /// A duration that cannot be read.
    InvalidDuration(String),
    /// A value that cannot be turned into text.
    SerializationError(String),
    /// A value of one kind where another was asked for.
    TypeMismatch { expected: String, actual: String },
    /// The input ended where more was needed.
    UnexpectedEof,
    /// A failure reported by a conversion layer.
    Custom(String),
}

} // verus!
