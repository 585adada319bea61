//! The failures that the library reports.

use vstd::prelude::*;

verus! {

/// Why a fetch could not go on.
#[derive(Debug, Clone, Copy, PartialEq, Eq, Structural)]
pub enum FetchError {
    /// No URL was given on the command line.
    MissingArgument,
    /// The URL could not be understood.
    InvalidUri,
    /// The response lacks the blank line after its head, or a header line lacks `": "`.
    MalformedResponse,
}

} // verus!
