//! The error taxonomy of the pipeline.
//!
//! `ParseError` reports that an expected HTML fragment is absent or that its
//! numeric payload is malformed.  `ProviderError` is what an upstream fetch
//! can fail with: either the transport failed (`Upstream`) or the body could
//! not be parsed (`Parse`).  Cache connectivity failures are handled by the
//! surrounding application, which fails open: a read error is treated as a
//! miss and a write error never fails the request.

use vstd::prelude::*;

verus! {

/// Extraction failure: a marker fragment is missing from the document, or
/// the text selected by a marker does not contain a parseable number.
#[derive(Clone, Copy, Debug, PartialEq, Eq, Structural)]
pub enum ParseError {
    /// No element matched one of the temperature markers.
    MissingFragment,
    /// A fragment was found but its numeric payload is malformed.
    MalformedNumber,
}

/// Failure of the key-value store on a read or a write.
#[derive(Clone, Copy, Debug, PartialEq, Eq, Structural)]
pub enum CacheError {
    /// The store could not be reached.
    Unreachable,
    /// The store answered, but not in its protocol.
    Protocol,
}

/// Failure of one upstream fetch attempt.
#[derive(Clone, Copy, Debug, PartialEq, Eq, Structural)]
pub enum ProviderError {
    /// Network failure, timeout, or a non-success status from upstream.
    Upstream,
    /// The body came back but extraction failed.
    Parse(ParseError),
}

} // verus!
