//! The messages in which fragment metadata is persisted, as plain values.

use vstd::prelude::*;

verus! {

/// The persisted form of a data file.
#[derive(Debug, Clone, PartialEq, Eq)]
pub struct DataFile {
    /// Relative path of the data file to the dataset root.
    pub path: String,
    /// The ids of the fields stored in the file.
    pub fields: Vec<i32>,
}

/// The persisted form of a fragment.
#[derive(Debug, Clone, PartialEq, Eq)]
pub struct DataFragment {
    /// Fragment id, unique within a dataset.
    pub id: u64,
    /// The files of the fragment.
    pub files: Vec<DataFile>,
}

} // verus!
