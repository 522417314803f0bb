//! How a file is decoded: where its decoded bytes are put, and when they
//! take the place of the file.

use vstd::prelude::*;

verus! {

/// Files shorter than this, 1 MiB, are decoded in memory.
pub const SMALL_FILE_THRESHOLD: u64 = 1048576;

/// Where the decoded bytes of a file go.
#[derive(Debug, Clone, Copy, PartialEq, Eq, Structural)]
pub enum FileStrategy {
    /// Nowhere: the file is decoded to see whether it would change.
    DryRun,
    /// Into memory, and back to the file.
    InMemory,
    /// Into a temporary file beside the file, which takes its place.
    TempFile,
}

/// The strategy for a file of `file_len` bytes.
pub open spec fn strategy_for(file_len: u64, dry_run: bool) -> FileStrategy {
    if dry_run {
        FileStrategy::DryRun
    } else if file_len < SMALL_FILE_THRESHOLD {
        FileStrategy::InMemory
    } else {
        FileStrategy::TempFile
    }
}

/// Chooses the strategy for a file of `file_len` bytes.
pub fn choose_strategy(file_len: u64, dry_run: bool) -> (strategy: FileStrategy)
    ensures
        strategy == strategy_for(file_len, dry_run),
{
    if dry_run {
        FileStrategy::DryRun
    } else if file_len < SMALL_FILE_THRESHOLD {
        FileStrategy::InMemory
    } else {
        FileStrategy::TempFile
    }
}

/// Whether the decoded bytes take the place of the file: only where the file
/// was changed, and never in a dry run.
pub fn replaces_file(strategy: FileStrategy, changed: bool) -> (replaces: bool)
    ensures
        replaces == (changed && strategy != FileStrategy::DryRun),
{
    match strategy {
        FileStrategy::DryRun => false,
        FileStrategy::InMemory => changed,
        FileStrategy::TempFile => changed,
    }
}

} // verus!
