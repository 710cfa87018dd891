use vstd::prelude::*;

verus! {

/// Errors of the filesystem core, returned to the front-end that asked.
#[derive(Debug, Clone, Copy, PartialEq, Eq, Structural)]
pub enum FsError {
    /// A path or a name resolves to no node.
    NotFound,
    /// Traversal through a file, listing a file, or a write-class request.
    Forbidden,
    /// An exclusive create of a path that already resolves, or a sibling
    /// name that is already taken.
    AlreadyExists,
    /// A relative seek that would land before the start of the file, or
    /// beyond the largest representable position.
    InvalidSeek,
    /// The backend's listing or fetch failed, or returned a malformed entry.
    BackendFailure,
    /// Every node identity is in use.
    NoSpace,
}

} // verus!
