//! Leaf nodes: one on-disk file, a format, optional defaults, and the
//! currently loaded content.

use vstd::prelude::*;

use crate::errors::ConfigError;
use crate::format::{Format, opt_view};
use crate::fs::{EntryV, Fs, spec_can_write};
use crate::model::{FileV, file_read_err, file_read_ok, file_read_post, fs_frame,
    lemma_frame_insert, lemma_frame_refl, spec_file_write};
use crate::path::ConfigPath;

verus! {

/// Per-leaf policy: whether a read that fell back to defaults immediately
/// writes the defaulted content back to disk.
#[derive(Clone, Copy, Debug, PartialEq, Eq, Structural)]
pub struct ConfigFileOpts {
    pub write_if_defaulted: bool,
}

impl Default for ConfigFileOpts {
    fn default() -> (r: Self)
        ensures
            r == (ConfigFileOpts { write_if_defaulted: false }),
    {
        ConfigFileOpts { write_if_defaulted: false }
    }
}

/// A leaf of the configuration tree: wraps one file on disk.
pub struct ConfigFile<F: Format> {
    pub path: ConfigPath,
    pub options: ConfigFileOpts,
    pub content: Option<F::Content>,
    pub defaulted: bool,
    pub format: F,
    pub defaults: Option<F::Defaults>,
}

impl<F: Format> View for ConfigFile<F> {
    type V = FileV<F>;

    open spec fn view(&self) -> FileV<F> {
        FileV {
            path: self.path@,
            content: opt_view(self.content),
            defaulted: self.defaulted,
            defaults: opt_view(self.defaults),
            options: self.options,
        }
    }
}

impl<F: Format> ConfigFile<F> {
    /// Registers a leaf in the unread state: no content, not defaulted.
    pub fn new(path: ConfigPath, format: F) -> (r: Self)
        ensures
            r@ == (FileV::<F> {
                path: path@,
                content: None,
                defaulted: false,
                defaults: None,
                options: ConfigFileOpts { write_if_defaulted: false },
            }),
    {
        ConfigFile {
            path,
            options: ConfigFileOpts { write_if_defaulted: false },
            content: None,
            defaulted: false,
            format,
            defaults: None,
        }
    }

    /// Attaches fallback content for empty or missing files.
    pub fn def(self, defaults: F::Defaults) -> (r: Self)
        ensures
            r@ == (FileV { defaults: Some(defaults@), ..self@ }),
    {
        ConfigFile { defaults: Some(defaults), ..self }
    }

    /// Replaces the leaf's options.
    pub fn opt(self, options: ConfigFileOpts) -> (r: Self)
        ensures
            r@ == (FileV { options, ..self@ }),
    {
        ConfigFile { options, ..self }
    }

    /// Reads the file: missing files count as empty bytes, the format
    /// decodes them under the leaf's defaults, and when the result was
    /// defaulted and `write_if_defaulted` is set, the defaulted content is
    /// written straight back before returning.
    pub fn read(self, fs: &mut Fs) -> (r: Result<Self, ConfigError>)
        requires
            old(fs).wf(),
            self@.path.len() >= 1,
        ensures
            final(fs).wf(),
            fs_frame(old(fs)@, final(fs)@, self@.path),
            r is Ok <==> file_read_ok(self@, old(fs)@),
            r matches Ok(g) ==> file_read_post(self@, g@, old(fs)@) && (if g@.defaulted
                && g@.options.write_if_defaulted {
                final(fs)@ == old(fs)@.insert(
                    self@.path,
                    EntryV::File(F::spec_serialize(g@.content)),
                )
            } else {
                final(fs)@ == old(fs)@
            }),
            r matches Err(e) ==> final(fs)@ == old(fs)@ && e == file_read_err(self@, old(fs)@),
    {
        let bytes: Vec<u8> = if fs.exists_at(&self.path) {
            match fs.read(&self.path) {
                Ok(b) => b,
                Err(e) => {
                    return Err(e);
                },
            }
        } else {
            Vec::new()
        };
        let deserialized = match self.format.deserialize(bytes, self.defaults.as_ref()) {
            Ok(d) => d,
            Err(e) => {
                return Err(e);
            },
        };
        let mut out = self;
        out.content = Some(deserialized.0);
        out.defaulted = deserialized.1;
        if out.defaulted && out.options.write_if_defaulted {
            out = match out.write(fs) {
                Ok(g) => g,
                Err(e) => {
                    return Err(e);
                },
            };
        }
        Ok(out)
    }

    /// Serializes the current content (absent content as no bytes) and
    /// writes it to the leaf's path, overwriting any existing file. Parent
    /// directories are not created here; a containing directory, or the
    /// caller of a standalone leaf, must ensure they exist.
    pub fn write(self, fs: &mut Fs) -> (r: Result<Self, ConfigError>)
        requires
            old(fs).wf(),
            self@.path.len() >= 1,
        ensures
            final(fs).wf(),
            fs_frame(old(fs)@, final(fs)@, self@.path),
            match spec_file_write::<F>(self@, old(fs)@) {
                Ok(m2) => r matches Ok(g) && g == self && final(fs)@ == m2,
                Err(e) => r matches Err(e2) && e2 == e && final(fs)@ == old(fs)@,
            },
    {
        let ghost m0 = fs@;
        let bytes = self.format.serialize(self.content.as_ref());
        let res = fs.write(&self.path, bytes);
        proof {
            if spec_can_write(m0, self@.path) {
                lemma_frame_insert(m0, self@.path, EntryV::File(F::spec_serialize(self@.content)));
            } else {
                lemma_frame_refl(m0, self@.path);
            }
        }
        match res {
            Ok(_) => Ok(self),
            Err(e) => Err(e),
        }
    }
}

} // verus!
