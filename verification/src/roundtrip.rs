//! What happened when the reader was pointed at one book.
//!
//! The round-trip itself — open a container, write it back untouched — runs
//! outside this library; what it reports is a value of [`Outcome`], and a
//! reader that fails or panics on a real book is a finding, recorded rather
//! than swallowed.

use vstd::prelude::*;

verus! {

/// What happened when the reader was pointed at one book.
#[derive(Debug, Clone, PartialEq, Eq)]
pub enum Outcome {
    /// Read and written; the pair is ready to classify.
    RoundTripped,
    /// The reader refused the file.
    ReadFailed {
        /// The reader's own error text.
        error: String,
    },
    /// The reader parsed the file but could not write it back.
    WriteFailed {
        /// The reader's own error text.
        error: String,
    },
    /// The reader panicked.
    Panicked {
        /// Panic payload, where it was a string.
        message: String,
    },
}

impl Outcome {
    /// Whether a comparable output file was produced.
    pub fn produced_output(&self) -> (r: bool)
        ensures
            r == (*self is RoundTripped),
    {
        matches!(self, Outcome::RoundTripped)
    }
}

} // verus!
