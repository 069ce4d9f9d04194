//! The reasons for which one signature can fail.

use vstd::prelude::*;

verus! {

/// Why a signature could not be parsed, found or applied.
#[derive(Clone, Copy, Debug, PartialEq, Eq)]
pub enum PatchError {
    /// A token of a pattern or template text is neither a two-digit hex byte
    /// nor a wildcard spelling.
    ParseError,
    /// The search pattern is empty or longer than the buffer.
    InvalidPattern,
    /// No window of the buffer satisfies the search pattern.
    NotFound,
    /// The search pattern and the replacement template differ in length.
    TemplateLengthMismatch { pat: usize, rep: usize },
    /// The patched region would reach past the end of the buffer.
    OutOfRange,
}

} // verus!
