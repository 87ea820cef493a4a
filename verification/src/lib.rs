//! A typed, hierarchical configuration tree that is reconciled against a
//! filesystem: leaf nodes wrap single files, directory nodes wrap directories
//! of children, and reading or writing walks the tree while honouring
//! per-directory policies (discovery of unregistered entries, recursive
//! descent, write-back after defaulting).
//!
//! The filesystem itself is modelled by [`fs::Fs`], an in-memory store of
//! files and directories with `mkdir -p` semantics; callers that want the
//! tree mirrored onto a real disk load a snapshot into an [`fs::Fs`], run
//! `read`/`write` against it, and copy the result back out.

pub mod child_path;
pub mod config;
pub mod config_directory;
pub mod config_file;
pub mod errors;
pub mod format;
pub mod fs;
pub mod laws;
pub mod model;
pub mod path;
pub mod string_format;
pub mod test_directory;
pub mod test_file;
pub mod test_path;

use vstd::prelude::*;

verus! {

} // verus!
