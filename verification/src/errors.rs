//! Errors surfaced by tree reconciliation and by the filesystem model.

use vstd::prelude::*;

verus! {

/// Everything that can go wrong while registering, reading or writing a
/// configuration tree.
#[derive(Clone, Copy, Debug, PartialEq, Eq, Structural)]
pub enum ConfigError {
    /// The path names a directory (or the root) where a file was needed.
    NotAFile,
    /// The path names nothing at all where an existing file was needed.
    NotFound,
    /// A file cannot be written because its parent directory does not exist.
    MissingParent,
    /// A directory cannot be created because a file occupies one of the
    /// path's components.
    NotADirectory,
    /// A format failed to decode the bytes of a file.
    Decode,
    /// A child was registered under a path with more than one component.
    InvalidChildPath,
}

} // verus!
