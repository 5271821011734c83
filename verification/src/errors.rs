use vstd::prelude::*;

verus! {

/// Every failure the library reports.
///
/// Path-shaped errors carry the offending index, the depth at which the walk
/// stopped, and the original path text, so that a caller can render a precise
/// message.
#[derive(Debug, Clone, PartialEq, Eq)]
pub enum TodoError {
    /// A path segment is not a valid non-negative integer.
    InvalidPathFormat,
    /// An empty path was supplied where one was required.
    PathNotFound,
    /// A path segment exceeds the item count of the list at that depth.
    IndexOutOfBounds { index: usize, depth: usize, path: String },
    /// A non-final path segment addresses an item that has no sub-list.
    NoSublistAtIndex { index: usize, path: String },
    /// No item with the requested identifier exists in the addressed list.
    ItemNotFound { id: usize },
    /// A release was attempted on an identifier that is not currently in use.
    IdNotInUse { id: usize },
    /// The deadline text matches none of the recognized grammars.
    InvalidDeadlineFormat,
    /// The requested parent item does not exist.
    ParentNotFound,
}

} // verus!
