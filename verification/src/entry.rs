//! The values a pass works on: what a directory listing holds, and what is to
//! be done with it.

use vstd::prelude::*;

verus! {

/// One immediate child of a directory.
#[derive(Debug, Clone, PartialEq, Eq)]
pub struct FileEntry {
    /// The last component of the child's path.
    pub name: String,
    /// Whether the child is itself a directory.
    pub is_dir: bool,
}

/// A [`FileEntry`] as contracts see it.
pub struct FileEntryView {
    pub name: Seq<char>,
    pub is_dir: bool,
}

impl View for FileEntry {
    type V = FileEntryView;

    open spec fn view(&self) -> FileEntryView {
        FileEntryView { name: self.name@, is_dir: self.is_dir }
    }
}

impl DeepView for FileEntry {
    type V = FileEntryView;

    open spec fn deep_view(&self) -> FileEntryView {
        self@
    }
}

/// One file to bring from the source directory to the destination directory.
#[derive(Debug, Clone, PartialEq, Eq)]
pub struct TransferOperation {
    /// The path to read the bytes from.
    pub source: String,
    /// The path to write the same bytes to, created or truncated.
    pub destination: String,
    /// Whether `source` is removed once `destination` is written.
    pub delete_after: bool,
}

/// A [`TransferOperation`] as contracts see it.
pub struct TransferView {
    pub source: Seq<char>,
    pub destination: Seq<char>,
    pub delete_after: bool,
}

impl View for TransferOperation {
    type V = TransferView;

    open spec fn view(&self) -> TransferView {
        TransferView {
            source: self.source@,
            destination: self.destination@,
            delete_after: self.delete_after,
        }
    }
}

impl DeepView for TransferOperation {
    type V = TransferView;

    open spec fn deep_view(&self) -> TransferView {
        self@
    }
}

} // verus!
