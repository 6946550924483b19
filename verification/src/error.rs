//! Errors reported by chain construction and manifest interpretation.

use vstd::prelude::*;

verus! {

/// Why an operation of this crate was refused.
///
/// Chain construction is fail-fast: a family without coverage cannot render
/// anything, so it is a configuration error rather than a representable state.
#[derive(Debug, Clone, Copy, PartialEq, Eq, Structural)]
pub enum Error {
    /// A fallback chain needs at least one family.
    NoFamilies,
    /// The family at this position of the ordered list owns no codepoints.
    EmptyCoverage { family: usize },
    /// The font manifest did not follow the expected structure.
    MalformedManifest,
}

impl Error {
    /// A short human-readable description of the error.
    pub fn message(&self) -> &'static str {
        match self {
            Error::NoFamilies => "fallback chain has no families",
            Error::EmptyCoverage { .. } => "family has empty codepoint coverage",
            Error::MalformedManifest => "malformed font manifest",
        }
    }
}

} // verus!
