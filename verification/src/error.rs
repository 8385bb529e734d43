//! The errors of the library.

use vstd::prelude::*;

verus! {

/// Why a computation failed. A failure ends the whole computation: no
/// partial result is returned.
#[derive(Debug, Clone, Copy, PartialEq, Eq, Structural)]
pub enum SccError {
    /// A line of the edge list does not consist of exactly two vertex identifiers.
    ParseError,
    /// An edge names a vertex that has no finishing time.
    LookupError,
}

} // verus!
