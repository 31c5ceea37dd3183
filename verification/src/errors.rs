//! Error taxonomy of the search library.

use vstd::prelude::*;

verus! {

/// Why a search could not produce a result.
#[derive(Clone, Copy, Debug, PartialEq, Eq, Structural)]
pub enum SearchError {
    /// Malformed prefix, a non-canonical timestamp span, or an
    /// out-of-range worker count; rejected before any worker starts.
    InvalidInput,
    /// The commit metadata lacks an author or a committer line.
    NotFound,
    /// Every worker terminated without a match.
    ChannelClosed,
    /// Decrementing the timestamp counter would go below zero.
    Underflow,
}

} // verus!
