//! The failures that the library reports.

use vstd::prelude::*;
use crate::text::{chars_of, string_of};

verus! {

/// The address names a file type that is neither a plain video nor a playlist.
#[derive(Debug, Clone, Copy, PartialEq, Eq)]
pub struct ExtensionError;

impl ExtensionError {
    /// The text shown for this error.
    pub fn message(&self) -> (s: String)
        ensures
            s@ == "Extension error"@,
    {
        string_of(&chars_of("Extension error"))
    }
}

/// Why a manifest could not be read. None of these is retried.
#[derive(Debug, Clone, Copy, PartialEq, Eq)]
pub enum ManifestError {
    /// A variant line has no readable `BANDWIDTH=` value followed by a comma.
    MalformedBandwidth,
    /// A segment line has no readable duration between its colon and its comma.
    MalformedDuration,
    /// A variant or segment line is the last line: no address follows it.
    MissingUri,
    /// The line after a marker is neither an absolute address nor one
    /// relative to the base path.
    UnresolvedUri,
    /// A master manifest lists no variant.
    EmptyVariantSet,
    /// The manifest's own address holds no `/`, so it has no base path.
    NoBasePath,
}

/// Why a download job ended without its output.
#[derive(Debug, Clone, Copy, PartialEq, Eq)]
pub enum JobError {
    /// The manifest is malformed.
    Manifest(ManifestError),
    /// There is nothing to fetch: no segment, or a length of zero.
    EmptyPlan,
    /// The requested chunk size or number of parallel fetches is zero.
    InvalidOptions,
    /// The retry ceiling is exhausted and `unfinished` tasks never completed.
    IncompleteDownload { unfinished: usize },
    /// A step was asked of a job that is not in the state for it.
    ContractViolation,
}

} // verus!
