//! Errors reported while building, decoding or compiling a DFA.

use vstd::prelude::*;

verus! {

/// Errors from DFA construction, decoding or compilation.
#[derive(Debug)]
#[non_exhaustive]
pub enum Error {
    /// The DFA has zero states.
    EmptyDfa,
    /// The transition table dimensions or contents are inconsistent.
    InvalidTable {
        /// Description of the inconsistency.
        reason: String,
    },
    /// Executable memory allocation failed.
    MemoryAllocation {
        /// Underlying reason.
        reason: String,
    },
    /// The DFA state count exceeds the supported limit.
    TooManyStates {
        /// Actual state count.
        states: usize,
        /// Maximum supported.
        max: usize,
    },
    /// The native scanner disagreed with the interpreted scanner.
    JitParity {
        /// Description of the mismatch.
        reason: String,
    },
}

/// An `InvalidTable` error carrying the given explanation.
pub(crate) fn invalid_table(reason: &str) -> (e: Error)
    ensures
        e matches Error::InvalidTable { reason: text } && text@ == reason@,
{
    Error::InvalidTable { reason: reason.to_owned() }
}

} // verus!
