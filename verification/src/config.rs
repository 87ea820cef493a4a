//! The element type of a directory's child collection: a leaf or a
//! subdirectory, plus the directory-creation primitive shared by both.

use vstd::prelude::*;

use crate::config_directory::ConfigDirectory;
use crate::config_file::ConfigFile;
use crate::errors::ConfigError;
use crate::format::Format;
use crate::fs::{Fs, spec_can_mkdir, spec_mkdir};
use crate::model::{ConfigV, config_view, fs_frame, lemma_frame_mkdir, lemma_frame_refl,
    spec_ensure};
use crate::path::{ConfigPath, is_prefix_of};

verus! {

/// A node of the configuration tree.
pub enum Config<F: Format> {
    File(ConfigFile<F>),
    Directory(ConfigDirectory<F>),
}

impl<F: Format> View for Config<F> {
    type V = ConfigV<F>;

    open spec fn view(&self) -> ConfigV<F> {
        config_view(*self)
    }
}

/// Ensures that the directory at `path`, and all its missing ancestors,
/// exist; a no-op when the directory is already there.
pub fn ensure(fs: &mut Fs, path: &ConfigPath) -> (r: Result<(), ConfigError>)
    requires
        old(fs).wf(),
    ensures
        final(fs).wf(),
        match spec_ensure(old(fs)@, path@) {
            Ok(m2) => r is Ok && final(fs)@ == m2,
            Err(e) => r matches Err(e2) && e2 == e && final(fs)@ == old(fs)@,
        },
        fs_frame(old(fs)@, final(fs)@, path@),
{
    let ghost m0 = fs@;
    if !fs.is_dir(path) {
        let r = fs.make_dir_all(path);
        proof {
            if spec_can_mkdir(m0, path@) {
                lemma_frame_mkdir(m0, path@);
            } else {
                lemma_frame_refl(m0, path@);
            }
        }
        r
    } else {
        proof {
            fs.lemma_wf();
            assert(spec_can_mkdir(m0, path@)) by {
                assert forall|k: int| 1 <= k <= path@.len() implies !crate::fs::fs_is_file(
                    m0,
                    #[trigger] path@.subrange(0, k),
                ) by {
                    if k == path@.len() {
                        assert(path@.subrange(0, k) =~= path@);
                    } else {
                        assert(m0.contains_key(path@));
                        assert(crate::fs::fs_is_dir(m0, path@.subrange(0, k)));
                    }
                }
            }
            assert(spec_mkdir(m0, path@) =~= m0) by {
                assert forall|q: Seq<Seq<char>>|
                    is_prefix_of(q, path@) && q.len() >= 1 implies m0.contains_key(q) by {
                    if q.len() == path@.len() {
                        assert(q =~= path@);
                    } else {
                        assert(crate::fs::fs_is_dir(m0, path@.subrange(0, q.len() as int)));
                        assert(path@.subrange(0, q.len() as int) == q);
                    }
                }
            }
            lemma_frame_refl(m0, path@);
        }
        Ok(())
    }
}

} // verus!
