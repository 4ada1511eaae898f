//! The immutable per-file record that flows through every pipeline stage.

use vstd::prelude::*;

verus! {

/// Ghost-level image of a [`FileRecord`]: the path as a character
/// sequence, the exact byte size, and the modification time as seconds
/// since the Unix epoch.
pub struct RecordView {
    pub path: Seq<char>,
    pub size: u64,
    pub modified: i64,
}

/// Metadata of one regular file, created by the enumerator and never
/// mutated afterwards.
pub struct FileRecord {
    /// Absolute path of the file.
    pub path: String,
    /// Exact size in bytes.
    pub size: u64,
    /// Last-modified time, seconds since the Unix epoch.
    pub modified: i64,
}

impl View for FileRecord {
    type V = RecordView;

    open spec fn view(&self) -> RecordView {
        RecordView { path: self.path@, size: self.size, modified: self.modified }
    }
}

impl Clone for FileRecord {
    fn clone(&self) -> (r: FileRecord)
        ensures
            r@ == self@,
    {
        FileRecord { path: self.path.clone(), size: self.size, modified: self.modified }
    }
}

impl FileRecord {
    /// Builds a record from the plain values an enumerator gathers.
    pub fn new(path: String, size: u64, modified: i64) -> (r: FileRecord)
        ensures
            r@ == (RecordView { path: path@, size, modified }),
    {
        FileRecord { path, size, modified }
    }
}

} // verus!
