//! A fixture for tests: direct whole-file access to a filesystem, without
//! going through a configuration tree.

use vstd::prelude::*;
use vstd::string::StrSliceExecFns;
use vstd::utf8::{decode_utf8, encode_utf8, valid_utf8};

use crate::fs::{EntryV, Fs, spec_can_write, spec_read_file};
use crate::path::ConfigPath;
use crate::string_format::string_from_utf8;

verus! {

/// A handle on one file of the filesystem.
pub struct TestFile {
    pub path: ConfigPath,
}

impl TestFile {
    /// A handle on the file at `path`.
    pub fn new(path: &ConfigPath) -> (r: Self)
        ensures
            r.path@ == path@,
    {
        TestFile { path: path.clone() }
    }

    /// Reads the file as text.
    pub fn read(&self, fs: &Fs) -> (r: String)
        requires
            fs.wf(),
            spec_read_file(fs@, self.path@) matches Ok(b) && valid_utf8(b),
        ensures
            r@ == decode_utf8(spec_read_file(fs@, self.path@)->Ok_0),
    {
        let bytes = match fs.read(&self.path) {
            Ok(b) => b,
            Err(_) => {
                proof {
                    assert(false);
                }
                Vec::new()
            },
        };
        match string_from_utf8(bytes) {
            Some(s) => s,
            None => {
                proof {
                    assert(false);
                }
                String::new()
            },
        }
    }

    /// Writes `content` as the file's whole text.
    pub fn write(&self, fs: &mut Fs, content: &String) -> (r: Result<(), crate::errors::ConfigError>)
        requires
            old(fs).wf(),
        ensures
            final(fs).wf(),
            r is Ok <==> spec_can_write(old(fs)@, self.path@),
            r is Ok ==> final(fs)@ == old(fs)@.insert(
                self.path@,
                EntryV::File(encode_utf8(content@)),
            ),
            r is Err ==> final(fs)@ == old(fs)@,
    {
        let bytes = content.as_str().as_bytes_vec();
        fs.write(&self.path, bytes)
    }
}

} // verus!
