//! The library's error type.
use vstd::prelude::*;

verus! {

/// Why reading an integer from text failed, as `std::num::IntErrorKind`
/// reports it.
#[derive(Debug, Clone, PartialEq, Eq, Structural)]
pub enum IntErrorKind {
    /// The text is empty.
    Empty,
    /// The text holds a character that is not a digit where one is expected.
    InvalidDigit,
    /// The number is too large for the target type.
    PosOverflow,
}

/// Errors of the package manager.
#[derive(Debug, Clone, PartialEq, Eq)]
pub enum Error {
    UsageError { message: String },
    PackageError { message: String },
    APIResponseError(String),
    ParseIntError(IntErrorKind),
}

} // verus!
