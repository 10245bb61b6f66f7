use vstd::prelude::*;

verus! {

/// The ways a path query can fail.
///
/// The bracket-related kinds report, in a fixed order, why a single path
/// token is malformed; `NotFound` reports a missing member during a
/// read-only walk; `TypeMismatch` and `IndexOutOfBounds` report a
/// structurally invalid access (indexing a non-array, keying a non-object,
/// or an index past the end of an array).
#[derive(Debug, Clone, Copy, PartialEq, Eq, Structural)]
pub enum Error {
    /// A read-only lookup reached a member that does not exist.
    NotFound,
    /// The raw path begins or ends with the separator `.`.
    StartOrEndByDot,
    /// A token contains `[` but no `]`.
    UnclosedBracket,
    /// The text between `[` and `]` is not a non-negative integer.
    NotNumInBracket,
    /// A bracketed token does not end with `]`.
    NotEndWithBracket,
    /// The path string is empty.
    EmptyQuery,
    /// A step tried to key into a non-object or index a non-array.
    TypeMismatch,
    /// An array index is not below the array's length.
    IndexOutOfBounds,
}

} // verus!
