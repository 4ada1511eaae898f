//! Run configuration the pipeline core reads, and the error taxonomy
//! that separates the one fatal failure from the recoverable ones.

use vstd::prelude::*;

verus! {

/// Configuration supplied from outside: the scan root (used for
/// relative-path rendering) and whether progress display is enabled.
pub struct Params {
    pub directory: String,
    pub progress: bool,
}

impl Params {
    /// Builds the configuration from plain values.
    pub fn new(directory: String, progress: bool) -> (r: Params)
        ensures
            r.directory@ == directory@,
            r.progress == progress,
    {
        Params { directory, progress }
    }

    /// The scan root every reported path is rendered relative to.
    pub fn get_directory(&self) -> (r: &String)
        ensures
            r@ == self.directory@,
    {
        &self.directory
    }
}

/// The failures a run can meet.
#[derive(Clone, Copy, Debug, PartialEq, Eq, Structural)]
pub enum ScanError {
    /// The scan root does not exist.
    RootMissing,
    /// The scan root exists but is not a directory.
    RootNotDirectory,
    /// One directory entry could not be read during enumeration.
    EntryUnreadable,
    /// A file vanished between enumeration and fingerprinting.
    FileVanished,
}

/// Whether a failure aborts the run: only a root resolution failure is
/// fatal. A per-entry failure is skipped, and a file that vanishes
/// before fingerprinting is dropped from consideration; neither ever
/// surfaces past its stage.
pub fn is_fatal(e: &ScanError) -> (r: bool)
    ensures
        r <==> (e is RootMissing || e is RootNotDirectory),
{
    match e {
        ScanError::RootMissing => true,
        ScanError::RootNotDirectory => true,
        ScanError::EntryUnreadable => false,
        ScanError::FileVanished => false,
    }
}

/// Decides, before any stage starts, whether the scan may run: the run
/// aborts if and only if the scan root is missing or not a directory.
pub fn resolve_root(exists: bool, is_directory: bool) -> (r: Result<(), ScanError>)
    ensures
        r is Ok <==> (exists && is_directory),
        !exists ==> r == Result::<(), ScanError>::Err(ScanError::RootMissing),
        exists && !is_directory ==> r == Result::<(), ScanError>::Err(ScanError::RootNotDirectory),
{
    if !exists {
        Err(ScanError::RootMissing)
    } else if !is_directory {
        Err(ScanError::RootNotDirectory)
    } else {
        Ok(())
    }
}

} // verus!
