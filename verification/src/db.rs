//! The records that the index database stores and gives back.
use vstd::prelude::*;

verus! {

/// A row of the `files` table.
#[derive(Debug, Clone)]
pub struct FileRecord {
    pub path: String,
    pub hash: String,
    pub size: i64,
    pub indexed_at: i64,
    pub complete: i64,
}

/// What the index knows of a file: the hash it was indexed with, and whether
/// all of its chunks were stored.
#[derive(Debug, Clone)]
pub struct FileState {
    pub hash: String,
    pub complete: bool,
}

/// A file that the index knows, with its state.
#[derive(Debug, Clone)]
pub struct KnownFile {
    pub path: String,
    pub state: FileState,
}

/// Counts over the index.
#[derive(Debug, Clone)]
pub struct IndexStats {
    pub file_count: i64,
    pub chunk_count: i64,
    pub source_bytes: i64,
    pub embedded_bytes: i64,
    pub last_indexed_at: Option<i64>,
}

impl FileRecord {
    /// The row for a file indexed at `indexed_at` (Unix seconds), complete or
    /// not.
    pub fn new(path: String, hash: String, size: i64, indexed_at: i64, complete: bool) -> (r:
        FileRecord)
        ensures
            r.path == path,
            r.hash == hash,
            r.size == size,
            r.indexed_at == indexed_at,
            r.complete == (if complete {
                1int
            } else {
                0int
            }),
    {
        FileRecord { path, hash, size, indexed_at, complete: if complete {
            1
        } else {
            0
        } }
    }
}

impl FileState {
    /// The state stored in a row: `complete` is any nonzero value.
    pub fn from_row(hash: String, complete: i64) -> (r: FileState)
        ensures
            r.hash == hash,
            r.complete == (complete != 0),
    {
        FileState { hash, complete: complete != 0 }
    }
}

} // verus!
