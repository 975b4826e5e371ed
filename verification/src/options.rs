//! What the caller configures.

use vstd::prelude::*;

verus! {

/// The settings of a download.
#[derive(Debug, Clone, Copy, PartialEq, Eq)]
pub struct Options {
    /// The most fetches that may run at the same time.
    pub max_parallel_downloads: usize,
    /// The most waves in which the tasks of a job are tried.
    pub max_download_retries: usize,
    /// The number of bytes in each range of a file that is fetched in ranges.
    pub block_size: u64,
}

} // verus!
