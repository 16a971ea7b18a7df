//! Status and progress payloads of the bulk-dataset acquisition.

use vstd::prelude::*;

verus! {

/// Progress of the dataset download, in bytes. A total of zero means the
/// server did not say, and progress is indeterminate.
#[derive(Debug, Clone, Copy, PartialEq, Eq, Structural)]
pub struct DownloadProgress {
    pub downloaded: u64,
    pub total: u64,
}

/// Progress of the indexing pass, in rows.
#[derive(Debug)]
pub struct IndexingProgress {
    pub status: String,
    pub processed_count: u64,
}

/// The staging store's status: whether it exists, when it was refreshed, and
/// how many rows it holds.
#[derive(Debug, Clone, Copy, PartialEq, Eq, Structural)]
pub struct DbStatus {
    pub db_exists: bool,
    pub last_updated: Option<u64>,
    pub puzzle_count: i64,
}

impl Default for DbStatus {
    /// The status of a store that does not exist yet.
    fn default() -> (r: DbStatus)
        ensures
            r.db_exists == false,
            r.last_updated is None,
            r.puzzle_count == 0,
    {
        DbStatus { db_exists: false, last_updated: None, puzzle_count: 0 }
    }
}

} // verus!
