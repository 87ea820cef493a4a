//! A fixture for tests: direct directory creation on a filesystem.

use vstd::prelude::*;

use crate::child_path::ChildPath;
use crate::fs::{Fs, spec_can_mkdir, spec_mkdir};
use crate::path::ConfigPath;

verus! {

/// A handle on one directory of the filesystem.
pub struct TestDirectory {
    pub path: ConfigPath,
}

impl TestDirectory {
    /// A handle on the directory at `path`.
    pub fn new(path: &ConfigPath) -> (r: Self)
        ensures
            r.path@ == path@,
    {
        TestDirectory { path: path.clone() }
    }

    /// Creates the directory, together with any missing ancestors.
    pub fn create(&self, fs: &mut Fs) -> (r: Result<(), crate::errors::ConfigError>)
        requires
            old(fs).wf(),
        ensures
            final(fs).wf(),
            r is Ok <==> spec_can_mkdir(old(fs)@, self.path@),
            r is Ok ==> final(fs)@ == spec_mkdir(old(fs)@, self.path@),
            r is Err ==> final(fs)@ == old(fs)@,
    {
        fs.make_dir_all(&self.path)
    }
}

impl ChildPath for TestDirectory {
    open spec fn base(&self) -> Seq<Seq<char>> {
        self.path@
    }

    fn child_path(&self, config_name: &str) -> (r: ConfigPath) {
        crate::child_path::child_path(&self.path, config_name)
    }
}

} // verus!
