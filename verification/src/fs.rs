//! Access to the files a build reads and stats.
use vstd::prelude::*;
pub use crate::graph::MTime;

verus! {

/// The file system as the loader and the build see it: a source of file
/// contents and modification times.  Errors are messages.
pub trait FileSystem {
    /// The contents of the file at `path`; none if there is no such file.
    fn read(&self, path: &[u8]) -> Result<Option<Vec<u8>>, Vec<u8>>;

    /// stat() an on-disk path, producing its MTime.
    fn stat(&self, path: &[u8]) -> Result<MTime, Vec<u8>>;

    /// Create the directory at `path` with the directories above it, as
    /// far as they are missing.
    fn create_dir_all(&self, path: &[u8]) -> Result<(), Vec<u8>>;
}

} // verus!
