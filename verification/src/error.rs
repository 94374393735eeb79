//! What can go wrong.

use vstd::prelude::*;

verus! {

/// An operation that did not succeed.
#[derive(Debug, PartialEq, Eq)]
pub enum ServiceError {
    /// A statement could not be carried out.
    DbPut,
    /// A download is no archive.
    AddonDownloadZipCreate,
    /// An entry of a downloaded archive cannot be opened.
    AddonDownloadZipRead { file: usize },
    /// An entry of a downloaded archive cannot be unpacked to the path whose parts are given.
    AddonDownloadZipExtract { path: Vec<String> },
}

} // verus!
