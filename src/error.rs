//! Failures of the analysis core. Each one concerns a single document.

use vstd::prelude::*;

verus! {

/// What went wrong with one request.
#[derive(Debug, Clone, Copy, PartialEq, Eq, Structural)]
pub enum AnalysisError {
    /// A position or range lies outside the current buffer.
    RangeError,
    /// No open document has the given identity.
    UnknownDocument,
    /// A document with the given identity is already open.
    AlreadyOpen,
    /// The grammar could not be loaded or the parser gave no tree.
    ParseUnavailable,
    /// The buffer and its tree disagree: a captured span is not text of the buffer.
    InternalError,
}

} // verus!
