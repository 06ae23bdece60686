//! The error type shared by all fallible operations.

use vstd::prelude::*;

verus! {

/// Errors reported by array operations.
///
/// The `String` payloads carry a human readable message; callers that need
/// to tell errors apart match on the variant.
#[derive(Debug)]
pub enum NumRs2Error {
    /// The number of dimensions (or of indices) does not fit the array.
    DimensionMismatch(String),
    /// Two shapes that had to agree do not.
    ShapeMismatch { expected: Vec<usize>, actual: Vec<usize> },
    /// An index lies outside the dimension it addresses.
    IndexOutOfBounds(String),
    /// The operation cannot be carried out on these arguments.
    InvalidOperation(String),
    /// A numerical computation failed.
    ComputationError(String),
    /// Writing a value into a textual or binary format failed.
    SerializationError(String),
    /// Reading a value from a textual or binary format failed.
    DeserializationError(String),
    /// An input/output operation failed.
    IOError(String),
}

/// Result type of the library.
pub type Result<T> = core::result::Result<T, NumRs2Error>;

/// Builds an owned message from a string literal.
pub fn message(s: &str) -> (r: String)
    ensures
        r@ == s@,
{
    s.to_string()
}

} // verus!
