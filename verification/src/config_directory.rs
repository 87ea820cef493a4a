//! Composite nodes: one on-disk directory and a name-keyed collection of
//! child configurations.

use vstd::prelude::*;

use crate::config::Config;
use crate::config_file::ConfigFile;
use crate::errors::ConfigError;
use crate::format::Format;
use crate::fs::{Fs, FsView};
use crate::model::{ConfigV, DirV, agree_on_cone, children_keys, config_defaulted,
    config_path_of, config_read_ok, config_read_post, config_view, config_wf, dir_insert,
    dir_read_ok, dir_read_post, dir_view, dir_wf, discovered_entry_post, discovered_fresh_entry,
    entries_view, entry_descended, file_read_ok, fresh_dir_v, fresh_file_v, fs_frame, has_key,
    key_index, lemma_agree_refl, lemma_agree_sym, lemma_dir_insert_wf, lemma_discovered_file_ok,
    lemma_entries_view_props, lemma_frame_refl, lemma_frame_trans, lemma_frame_widen,
    lemma_has_config_key, lemma_read_ok_frame, lemma_read_post_frame,
    lemma_reparent_entries_props, lemma_reparent_wf, lemma_sibling_frame, no_write_back,
    reparent_config, reparent_dir, reparent_entries, spec_dir_write, spec_write_entries};
use crate::path::{ConfigPath, is_prefix_of, is_strict_prefix_of, parent_of};

verus! {

broadcast use vstd::std_specs::vec::group_vec_axioms;

/// Per-directory policy: write-back after defaulting, discovery of
/// unregistered on-disk entries, and recursive descent into subdirectories.
#[derive(Clone, Copy, Debug, PartialEq, Eq, Structural)]
pub struct ConfigDirOpts {
    pub write_if_defaulted: bool,
    pub read_new: bool,
    pub recursive: bool,
}

impl Default for ConfigDirOpts {
    fn default() -> (r: Self)
        ensures
            r == (ConfigDirOpts { write_if_defaulted: false, read_new: false, recursive: false }),
    {
        ConfigDirOpts { write_if_defaulted: false, read_new: false, recursive: false }
    }
}

/// A composite node of the configuration tree: wraps one directory on disk.
/// `configs` maps child names to child configurations, in registration
/// order; every key equals the last component of its child's path.
pub struct ConfigDirectory<F: Format> {
    pub path: ConfigPath,
    pub configs: Vec<(String, Config<F>)>,
    pub defaulted: bool,
    pub format: F,
    pub options: ConfigDirOpts,
}

impl<F: Format> View for ConfigDirectory<F> {
    type V = DirV<F>;

    open spec fn view(&self) -> DirV<F> {
        dir_view(*self)
    }
}

impl<F: Format> ConfigDirectory<F> {
    /// Registers a directory node with no children and all policies off.
    pub fn new(path: ConfigPath, format: F) -> (r: Self)
        ensures
            r@ == (DirV::<F> {
                path: path@,
                entries: Seq::empty(),
                defaulted: false,
                options: ConfigDirOpts {
                    write_if_defaulted: false,
                    read_new: false,
                    recursive: false,
                },
            }),
            dir_wf(r@),
    {
        let r = ConfigDirectory {
            path,
            configs: Vec::new(),
            defaulted: false,
            format,
            options: ConfigDirOpts::default(),
        };
        proof {
            assert(r@.entries =~= Seq::<(Seq<char>, ConfigV<F>)>::empty());
        }
        r
    }

    /// The path of a child of this directory named by the last component
    /// of `path`.
    fn child_path(&self, path: &ConfigPath) -> (r: ConfigPath)
        requires
            path@.len() >= 1,
        ensures
            r@ == self@.path.push(path@.last()),
    {
        self.path.clone().join_string(path.basename())
    }

    /// The name under which a child at `path` is registered: the last
    /// component.
    fn config_name(&self, path: &ConfigPath) -> (r: String)
        requires
            path@.len() >= 1,
        ensures
            r@ == path@.last(),
    {
        path.basename().clone()
    }

    /// Registers `c` under `key`, replacing a child already registered
    /// under the same name.
    #[verifier::loop_isolation(false)]
    fn insert_child(self, key: String, c: Config<F>) -> (r: Self)
        requires
            dir_wf(self@),
            config_path_of(config_view(c)) == self@.path.push(key@),
            config_wf(config_view(c)),
        ensures
            r@ == dir_insert(self@, key@, config_view(c)),
            dir_wf(r@),
    {
        let mut this = self;
        proof {
            lemma_entries_view_props(this.configs@);
        }
        let ghost d0 = this@;
        let n = this.configs.len();
        let mut i: usize = 0;
        while i < n
            invariant
                n == this.configs@.len(),
                i <= n,
                forall|j: int| 0 <= j < i ==> (#[trigger] this.configs@[j].0@) != key@,
                this@ == d0,
                entries_view(this.configs@) == d0.entries,
            decreases n - i,
        {
            proof {
                lemma_entries_view_props(this.configs@);
            }
            if this.configs[i].0.eq(&key) {
                let ghost s0 = this.configs@;
                let _ = this.configs.remove(i);
                this.configs.insert(i, (key, c));
                proof {
                    lemma_entries_view_props(s0);
                    lemma_entries_view_props(this.configs@);
                    assert(d0.entries[i as int].0 == key@);
                    assert(has_key(d0.entries, key@));
                    assert(key_index(d0.entries, key@) == i) by {
                        let w = key_index(d0.entries, key@);
                        assert(0 <= w < d0.entries.len() && (#[trigger] d0.entries[w]).0 == key@);
                        assert((#[trigger] d0.entries[i as int]).0 == key@);
                    }
                    assert(entries_view(this.configs@) =~= d0.entries.update(
                        i as int,
                        (key@, config_view(c)),
                    ));
                    assert(this@ == dir_insert(d0, key@, config_view(c)));
                    assert(dir_wf(this@)) by {
                        lemma_dir_insert_wf(d0, key@, config_view(c));
                    }
                }
                return this;
            }
            i += 1;
        }
        let ghost s0 = this.configs@;
        this.configs.push((key, c));
        proof {
            lemma_entries_view_props(s0);
            lemma_entries_view_props(this.configs@);
            assert(!has_key(d0.entries, key@)) by {
                if has_key(d0.entries, key@) {
                    let w = choose|w: int|
                        0 <= w < d0.entries.len() && (#[trigger] d0.entries[w]).0 == key@;
                    assert(s0[w].0@ == key@);
                }
            }
            assert(entries_view(this.configs@) =~= d0.entries.push((key@, config_view(c))));
            assert(this@ == dir_insert(d0, key@, config_view(c)));
            assert(dir_wf(this@)) by {
                lemma_dir_insert_wf(d0, key@, config_view(c));
            }
        }
        this
    }

    /// Registers a leaf as a child. The leaf's path must be a single
    /// component; it is re-rooted at this directory's path extended by that
    /// component, and the leaf is keyed by it.
    pub fn file(self, config_file: ConfigFile<F>) -> (r: Result<Self, ConfigError>)
        requires
            dir_wf(self@),
        ensures
            config_file@.path.len() != 1 ==> (r matches Err(e) && e
                == ConfigError::InvalidChildPath),
            config_file@.path.len() == 1 ==> (r matches Ok(d) && d@ == dir_insert(
                self@,
                config_file@.path.last(),
                reparent_config(
                    ConfigV::File(config_file@),
                    self@.path.push(config_file@.path.last()),
                ),
            ) && dir_wf(d@)),
    {
        if config_file.path.len() != 1 {
            return Err(ConfigError::InvalidChildPath);
        }
        let key = self.config_name(&config_file.path);
        let new_path = self.child_path(&config_file.path);
        let mut cf = config_file;
        cf.path = new_path;
        Ok(self.insert_child(key, Config::File(cf)))
    }

    /// Registers a subdirectory as a child. Its path must be a single
    /// component; the whole subtree is re-rooted below this directory.
    pub fn dir(self, config_dir: ConfigDirectory<F>) -> (r: Result<Self, ConfigError>)
        requires
            dir_wf(self@),
            dir_wf(config_dir@),
        ensures
            config_dir@.path.len() != 1 ==> (r matches Err(e) && e
                == ConfigError::InvalidChildPath),
            config_dir@.path.len() == 1 ==> (r matches Ok(d) && d@ == dir_insert(
                self@,
                config_dir@.path.last(),
                reparent_config(
                    ConfigV::Directory(config_dir@),
                    self@.path.push(config_dir@.path.last()),
                ),
            ) && dir_wf(d@)),
    {
        if config_dir.path.len() != 1 {
            return Err(ConfigError::InvalidChildPath);
        }
        let key = self.config_name(&config_dir.path);
        let new_path = self.child_path(&config_dir.path);
        let ghost cd0 = config_dir@;
        let cd = config_dir.reparent(new_path);
        proof {
            lemma_reparent_wf(ConfigV::Directory(cd0), self@.path.push(cd0.path.last()));
        }
        Ok(self.insert_child(key, Config::Directory(cd)))
    }

    /// Re-roots this directory, and recursively all its descendants, at
    /// `new_path`.
    #[verifier::loop_isolation(false)]
    fn reparent(self, new_path: ConfigPath) -> (r: Self)
        ensures
            r@ == reparent_dir(self@, new_path@),
        decreases self,
    {
        let ghost orig = self;
        let mut this = self;
        let ghost np = new_path@;
        this.path = new_path;
        let n = this.configs.len();
        let mut i: usize = 0;
        proof {
            lemma_entries_view_props(orig.configs@);
            lemma_reparent_entries_props(orig@.entries, np);
        }
        while i < n
            invariant
                n == this.configs@.len() == orig.configs@.len(),
                i <= n,
                this.path@ == np,
                this.defaulted == orig.defaulted,
                this.options == orig.options,
                forall|j: int| i <= j < n ==> (#[trigger] this.configs@[j]) == orig.configs@[j],
                forall|j: int|
                    0 <= j < i ==> (#[trigger] entries_view(this.configs@)[j]) == reparent_entries(
                        orig@.entries,
                        np,
                    )[j],
                forall|j: int|
                    i <= j < n ==> (#[trigger] entries_view(this.configs@)[j])
                        == orig@.entries[j],
            decreases n - i,
        {
            proof {
                lemma_entries_view_props(this.configs@);
                lemma_entries_view_props(orig.configs@);
                lemma_reparent_entries_props(orig@.entries, np);
            }
            let ghost s_pre = this.configs@;
            let (key, cfg) = this.configs.remove(i);
            let cp = this.path.clone().join_string(&key);
            let cfg2 = match cfg {
                Config::File(f) => {
                    let mut f2 = f;
                    f2.path = cp;
                    Config::File(f2)
                },
                Config::Directory(d) => {
                    proof {
                        assert(cfg == orig.configs@[i as int].1);
                        assert(decreases_to!(orig => orig.configs));
                        assert(decreases_to!(orig.configs => orig.configs[i as int]));
                        assert(decreases_to!(orig.configs[i as int] => orig.configs@[i as int].1));
                        assert(decreases_to!(cfg => d));
                        assert(decreases_to!(orig => d));
                    }
                    Config::Directory(d.reparent(cp))
                },
            };
            this.configs.insert(i, (key, cfg2));
            proof {
                lemma_entries_view_props(s_pre);
                lemma_entries_view_props(this.configs@);
                assert(this.configs@.len() == n);
                assert(this.configs@ =~= s_pre.update(i as int, this.configs@[i as int]));
                assert(entries_view(this.configs@)[i as int] == reparent_entries(
                    orig@.entries,
                    np,
                )[i as int]);
                assert forall|j: int| 0 <= j < i + 1 implies (#[trigger] entries_view(
                    this.configs@,
                )[j]) == reparent_entries(orig@.entries, np)[j] by {
                    if j < i {
                        assert(this.configs@[j] == s_pre[j]);
                        assert(entries_view(s_pre)[j] == reparent_entries(orig@.entries, np)[j]);
                    }
                }
                assert forall|j: int| i + 1 <= j < n implies (#[trigger] entries_view(
                    this.configs@,
                )[j]) == orig@.entries[j] by {
                    assert(this.configs@[j] == s_pre[j]);
                    assert(entries_view(s_pre)[j] == orig@.entries[j]);
                }
                assert forall|j: int| i + 1 <= j < n implies (#[trigger] this.configs@[j])
                    == orig.configs@[j] by {
                    assert(this.configs@[j] == s_pre[j]);
                }
            }
            i += 1;
        }
        proof {
            lemma_entries_view_props(this.configs@);
            lemma_reparent_entries_props(orig@.entries, np);
            assert(entries_view(this.configs@) =~= reparent_entries(orig@.entries, np));
        }
        this
    }

    /// Writes the directory to the filesystem: its own directory is created
    /// first (so empty subtrees still materialize), then every child in
    /// order. File children are always written; subdirectory children are
    /// written recursively only under the `recursive` policy, and otherwise
    /// just created as directories without descending. The first failure
    /// aborts the remaining walk; children already written stay written.
    #[verifier::loop_isolation(false)]
    pub fn write(self, fs: &mut Fs) -> (r: Result<Self, ConfigError>)
        requires
            old(fs).wf(),
            dir_wf(self@),
        ensures
            final(fs).wf(),
            fs_frame(old(fs)@, final(fs)@, self@.path),
            match spec_dir_write(self@, old(fs)@) {
                Ok(m2) => r matches Ok(d) && d@ == self@ && final(fs)@ == m2,
                Err(e) => r matches Err(e2) && e2 == e,
            },
        decreases self,
    {
        let ghost orig = self;
        let mut this = self;
        let ghost m0 = fs@;
        match crate::config::ensure(fs, &this.path) {
            Ok(_) => {},
            Err(e) => {
                return Err(e);
            },
        }
        let ghost m1 = fs@;
        proof {
            lemma_entries_view_props(this.configs@);
        }
        let n = this.configs.len();
        let mut i: usize = 0;
        while i < n
            invariant
                fs.wf(),
                n == this.configs@.len() == orig.configs@.len(),
                i <= n,
                this.path@ == orig@.path,
                this.defaulted == orig.defaulted,
                this.options == orig.options,
                forall|j: int| i <= j < n ==> (#[trigger] this.configs@[j]) == orig.configs@[j],
                forall|j: int|
                    0 <= j < i ==> (#[trigger] entries_view(this.configs@)[j]) == orig@.entries[j],
                spec_write_entries(orig@, i as int, fs@) == spec_write_entries(orig@, 0, m1),
                fs_frame(m0, fs@, orig@.path),
            decreases n - i,
        {
            let ghost s_start = this.configs@;
            proof {
                lemma_entries_view_props(s_start);
                lemma_entries_view_props(orig.configs@);
            }
            let ghost fs_pre = fs@;
            let ghost key_v = orig@.entries[i as int].0;
            proof {
                assert(orig@.entries[i as int].1 == config_view(orig.configs@[i as int].1));
                assert(config_path_of(orig@.entries[i as int].1) == orig@.path.push(key_v));
                assert(is_prefix_of(orig@.path, orig@.path.push(key_v))) by {
                    assert(orig@.path.push(key_v).subrange(0, orig@.path.len() as int)
                        =~= orig@.path);
                }
            }
            let mut skip = false;
            match &this.configs[i].1 {
                Config::Directory(dchild) => {
                    if !this.options.recursive {
                        let cdp = dchild.path.clone();
                        match crate::config::ensure(fs, &cdp) {
                            Ok(_) => {},
                            Err(e) => {
                                proof {
                                    lemma_frame_widen(fs_pre, fs@, orig@.path, cdp@);
                                    lemma_frame_trans(m0, fs_pre, fs@, orig@.path);
                                }
                                return Err(e);
                            },
                        }
                        skip = true;
                    }
                },
                Config::File(_) => {},
            }
            if !skip {
                let (key, cfg) = this.configs.remove(i);
                let cfg2 = match cfg {
                    Config::File(f) => {
                        match f.write(fs) {
                            Ok(g) => Config::File(g),
                            Err(e) => {
                                proof {
                                    lemma_frame_widen(fs_pre, fs@, orig@.path, f@.path);
                                    lemma_frame_trans(m0, fs_pre, fs@, orig@.path);
                                }
                                return Err(e);
                            },
                        }
                    },
                    Config::Directory(d) => {
                        proof {
                            assert(cfg == orig.configs@[i as int].1);
                            assert(decreases_to!(orig => orig.configs));
                            assert(decreases_to!(orig.configs => orig.configs[i as int]));
                            assert(decreases_to!(
                                orig.configs[i as int] => orig.configs@[i as int].1
                            ));
                            assert(decreases_to!(cfg => d));
                            assert(decreases_to!(orig => d));
                        }
                        match d.write(fs) {
                            Ok(g) => Config::Directory(g),
                            Err(e) => {
                                proof {
                                    lemma_frame_widen(fs_pre, fs@, orig@.path, d@.path);
                                    lemma_frame_trans(m0, fs_pre, fs@, orig@.path);
                                }
                                return Err(e);
                            },
                        }
                    },
                };
                proof {
                    assert(cfg == orig.configs@[i as int].1);
                    assert(config_view(cfg2) == config_view(cfg)) by {
                        match cfg2 {
                            Config::File(g) => {
                                assert(cfg2@ == cfg@);
                            },
                            Config::Directory(g) => {
                                assert(dir_view(g) == dir_view(cfg->Directory_0));
                            },
                        }
                    }
                    assert(key@ == key_v);
                }
                let ghost s_mid = this.configs@;
                this.configs.insert(i, (key, cfg2));
                proof {
                    lemma_entries_view_props(s_mid);
                    lemma_entries_view_props(this.configs@);
                    assert(s_mid == s_start.remove(i as int));
                    assert(this.configs@ == s_mid.insert(i as int, (key, cfg2)));
                    assert(this.configs@.len() == n);
                    assert(this.configs@[i as int] == (key, cfg2));
                    assert forall|j: int| i + 1 <= j < n implies (#[trigger] this.configs@[j])
                        == orig.configs@[j] by {
                        assert(this.configs@[j] == s_mid[j - 1]);
                        assert(s_mid[j - 1] == s_start[j]);
                        assert(s_start[j] == orig.configs@[j]);
                    }
                    assert forall|j: int| 0 <= j < i + 1 implies (#[trigger] entries_view(
                        this.configs@,
                    )[j]) == orig@.entries[j] by {
                        assert(entries_view(this.configs@)[j] == (
                            this.configs@[j].0@,
                            config_view(this.configs@[j].1),
                        ));
                        if j < i {
                            assert(this.configs@[j] == s_mid[j]);
                            assert(s_mid[j] == s_start[j]);
                            assert(entries_view(s_start)[j] == (
                                s_start[j].0@,
                                config_view(s_start[j].1),
                            ));
                            assert(entries_view(s_start)[j] == orig@.entries[j]);
                        } else {
                            assert(config_view(this.configs@[i as int].1) == config_view(cfg));
                            assert(orig@.entries[i as int] == (key_v, config_view(cfg)));
                        }
                    }
                }
            }
            proof {
                lemma_frame_widen(fs_pre, fs@, orig@.path, orig@.path.push(key_v));
                lemma_frame_trans(m0, fs_pre, fs@, orig@.path);
                assert(spec_write_entries(orig@, i as int, fs_pre) == spec_write_entries(
                    orig@,
                    i + 1,
                    fs@,
                ));
            }
            i += 1;
        }
        proof {
            lemma_entries_view_props(this.configs@);
            assert(spec_write_entries(orig@, n as int, fs@) == Ok::<FsView, ConfigError>(fs@));
            assert(this@.entries =~= orig@.entries);
            assert(this@ == orig@);
        }
        Ok(this)
    }

    /// Reconciles the directory against the filesystem. With `read_new`
    /// set and the directory present on disk, every unregistered on-disk
    /// entry is first registered as a fresh child. Then every file child is
    /// read, and every registered subdirectory child is read recursively
    /// under the `recursive` policy; other children are left untouched. The
    /// `defaulted` flag becomes the OR of the flags observed from the
    /// children descended into, and when it is set together with
    /// `write_if_defaulted`, the whole directory is written back before
    /// returning.
    #[verifier::loop_isolation(false)]
    #[verifier::rlimit(100)]
    pub fn read(self, fs: &mut Fs) -> (r: Result<Self, ConfigError>)
        requires
            old(fs).wf(),
            dir_wf(self@),
        ensures
            final(fs).wf(),
            fs_frame(old(fs)@, final(fs)@, self@.path),
            r matches Ok(d) ==> dir_read_post(self@, d@, old(fs)@) && dir_wf(d@),
            dir_read_ok(self@, old(fs)@) ==> r is Ok,
            no_write_back(ConfigV::Directory(self@)) ==> final(fs)@ == old(fs)@,
        decreases self,
    {
        let ghost orig = self;
        let ghost ov = self@;
        let ghost m = fs@;
        let mut this = self;
        let reg_len = this.configs.len();
        let ghost orig_len = ov.entries.len();
        proof {
            lemma_entries_view_props(this.configs@);
            lemma_frame_refl(m, ov.path);
        }
        // Discovery: register unregistered on-disk entries as fresh children.
        let disc = this.options.read_new && fs.is_dir(&this.path);
        if disc {
            let listing = fs.list(&this.path);
            let mut t: usize = 0;
            while t < listing.len()
                invariant
                    fs@ == m,
                    t <= listing@.len(),
                    this.path == orig.path,
                    this.defaulted == orig.defaulted,
                    this.options == orig.options,
                    dir_wf(this@),
                    this.configs@.len() >= reg_len,
                    forall|j: int|
                        0 <= j < reg_len ==> (#[trigger] this.configs@[j]) == orig.configs@[j],
                    forall|j: int|
                        orig_len <= j < entries_view(this.configs@).len()
                            ==> discovered_fresh_entry(
                            ov,
                            #[trigger] entries_view(this.configs@)[j],
                            m,
                        ),
                    forall|u: int|
                        0 <= u < t ==> has_key(
                            entries_view(this.configs@),
                            (#[trigger] listing@[u]).name@,
                        ),
                decreases listing@.len() - t,
            {
                proof {
                    lemma_entries_view_props(this.configs@);
                }
                let ghost d_cur = this@;
                let cp = this.path.clone().join_string(&listing[t].name);
                let ghost name_v = listing@[t as int].name@;
                proof {
                    assert(cp@ == ov.path.push(name_v));
                    assert(m.contains_key(cp@));
                }
                if !this.has_config(&cp) {
                    proof {
                        lemma_has_config_key(d_cur, name_v);
                        assert(!has_key(d_cur.entries, name_v));
                        assert(!has_key(ov.entries, name_v)) by {
                            if has_key(ov.entries, name_v) {
                                let w = choose|w: int|
                                    0 <= w < ov.entries.len() && (#[trigger] ov.entries[w]).0
                                        == name_v;
                                assert(d_cur.entries[w].0 == name_v);
                            }
                        }
                    }
                    let is_dir_entry = listing[t].is_dir;
                    let cfg = if is_dir_entry {
                        Config::Directory(ConfigDirectory::new(cp, this.format.clone()))
                    } else {
                        Config::File(ConfigFile::new(cp, this.format.clone()))
                    };
                    let keystr = listing[t].name.clone();
                    let ghost s_pre = this.configs@;
                    this.configs.push((keystr, cfg));
                    proof {
                        lemma_entries_view_props(s_pre);
                        lemma_entries_view_props(this.configs@);
                        assert(entries_view(this.configs@) =~= entries_view(s_pre).push(
                            (name_v, config_view(cfg)),
                        ));
                        assert(this@ == dir_insert(d_cur, name_v, config_view(cfg)));
                        assert(dir_wf(this@)) by {
                            lemma_dir_insert_wf(d_cur, name_v, config_view(cfg));
                        }
                        assert(discovered_fresh_entry(
                            ov,
                            entries_view(this.configs@)[entries_view(this.configs@).len() - 1],
                            m,
                        ));
                        assert(has_key(entries_view(this.configs@), name_v));
                        assert forall|u: int| 0 <= u < t + 1 implies has_key(
                            entries_view(this.configs@),
                            (#[trigger] listing@[u]).name@,
                        ) by {
                            if u < t {
                                let w = choose|w: int|
                                    0 <= w < entries_view(s_pre).len() && (#[trigger] entries_view(
                                        s_pre,
                                    )[w]).0 == listing@[u].name@;
                                assert(entries_view(this.configs@)[w].0 == listing@[u].name@);
                            }
                        }
                    }
                } else {
                    proof {
                        lemma_has_config_key(d_cur, name_v);
                        assert(has_key(entries_view(this.configs@), name_v));
                    }
                }
                t += 1;
            }
            proof {
                lemma_entries_view_props(this.configs@);
                assert forall|name: Seq<char>|
                    m.contains_key(#[trigger] ov.path.push(name)) && !has_key(
                        ov.entries,
                        name,
                    ) implies exists|j: int|
                    orig_len <= j < entries_view(this.configs@).len() && (#[trigger] entries_view(
                        this.configs@,
                    )[j]).0 == name by {
                    let k = ov.path.push(name);
                    assert(k.len() == ov.path.len() + 1 && is_prefix_of(ov.path, k)) by {
                        assert(k.subrange(0, ov.path.len() as int) =~= ov.path);
                    }
                    let u = choose|u: int|
                        0 <= u < listing@.len() && (#[trigger] listing@[u].name@) == k.last();
                    assert(has_key(entries_view(this.configs@), name));
                    let w = choose|w: int|
                        0 <= w < entries_view(this.configs@).len() && (#[trigger] entries_view(
                            this.configs@,
                        )[w]).0 == name;
                    assert(w >= orig_len) by {
                        if w < orig_len {
                            assert(entries_view(this.configs@)[w] == ov.entries[w]);
                        }
                    }
                }
            }
        }
        let ghost base = this@;
        let ghost cfgs_base = this.configs@;
        let ghost disc_spec = ov.options.read_new && crate::fs::fs_is_dir(m, ov.path);
        proof {
            lemma_entries_view_props(cfgs_base);
            assert(disc == disc_spec);
            assert(base.path == ov.path && base.options == ov.options);
            assert forall|j: int| 0 <= j < orig_len implies (#[trigger] base.entries[j])
                == ov.entries[j] by {
                assert(cfgs_base[j] == orig.configs@[j]);
                assert(entries_view(orig.configs@)[j] == ov.entries[j]);
            }
        }
        // Traversal: descend into every file child, and into registered
        // subdirectory children when `recursive` is set.
        let n = this.configs.len();
        let mut i: usize = 0;
        let mut any_defaulted = false;
        proof {
            assert(orig_len == reg_len);
            if !disc {
                assert(n == reg_len);
            }
            assert(dir_wf(base));
            assert(fs@ == m);
            lemma_frame_refl(m, ov.path);
            assert(crate::fs::dirs_preserved(m, m)) by {
                assert forall|q: Seq<Seq<char>>| #[trigger]
                    crate::fs::fs_is_dir(m, q) implies crate::fs::fs_is_dir(m, q) by {}
            }
            assert forall|j: int| 0 <= j < n implies agree_on_cone(
                m,
                fs@,
                ov.path.push((#[trigger] cfgs_base[j]).0@),
            ) by {
                lemma_agree_refl(m, ov.path.push(cfgs_base[j].0@));
            }
        }
        while i < n
            invariant
                fs.wf(),
                n == this.configs@.len() == cfgs_base.len(),
                i <= n,
                this.path == orig.path,
                this.options == orig.options,
                forall|j: int| i <= j < n ==> (#[trigger] this.configs@[j]) == cfgs_base[j],
                forall|j: int|
                    0 <= j < n ==> (#[trigger] entries_view(this.configs@)[j]).0
                        == base.entries[j].0,
                forall|j: int|
                    0 <= j < n ==> config_wf((#[trigger] entries_view(this.configs@)[j]).1),
                forall|j: int|
                    0 <= j < n ==> config_path_of((#[trigger] entries_view(this.configs@)[j]).1)
                        == ov.path.push(entries_view(this.configs@)[j].0),
                forall|j: int|
                    0 <= j < i && j < orig_len ==> (if entry_descended(
                        ov.options.recursive,
                        ov.entries[j].1,
                    ) {
                        config_read_post(
                            ov.entries[j].1,
                            (#[trigger] entries_view(this.configs@)[j]).1,
                            m,
                        )
                    } else {
                        (#[trigger] entries_view(this.configs@)[j]).1 == ov.entries[j].1
                    }),
                forall|j: int|
                    orig_len <= j < i ==> discovered_entry_post(
                        ov,
                        #[trigger] entries_view(this.configs@)[j],
                        m,
                    ),
                any_defaulted == exists|j: int|
                    0 <= j < i && entry_descended(
                        ov.options.recursive,
                        (#[trigger] entries_view(this.configs@)[j]).1,
                    ) && config_defaulted(entries_view(this.configs@)[j].1),
                fs_frame(m, fs@, ov.path),
                crate::fs::dirs_preserved(m, fs@),
                forall|j: int|
                    i <= j < n ==> agree_on_cone(
                        m,
                        fs@,
                        ov.path.push((#[trigger] cfgs_base[j]).0@),
                    ),
                no_write_back(ConfigV::Directory(ov)) ==> fs@ == m,
            decreases n - i,
        {
            let ghost s_start = this.configs@;
            proof {
                lemma_entries_view_props(s_start);
                lemma_entries_view_props(cfgs_base);
            }
            let ghost fs_pre = fs@;
            let ghost key_v = base.entries[i as int].0;
            let ghost cpv = ov.path.push(key_v);
            let ghost src = base.entries[i as int].1;
            proof {
                assert(entries_view(this.configs@)[i as int] == base.entries[i as int]);
                assert(config_path_of(src) == cpv);
                assert(config_wf(src));
                assert(is_prefix_of(ov.path, cpv)) by {
                    assert(cpv.subrange(0, ov.path.len() as int) =~= ov.path);
                }
                if orig_len <= i {
                    assert(discovered_fresh_entry(ov, base.entries[i as int], m));
                }
            }
            let descend = match &this.configs[i].1 {
                Config::File(_) => true,
                Config::Directory(_) => i < reg_len && this.options.recursive,
            };
            if descend {
                let (key, cfg) = this.configs.remove(i);
                proof {
                    assert(cfg == cfgs_base[i as int].1);
                    assert(config_view(cfg) == src);
                }
                let mut child_defaulted = false;
                let cfg2 = match cfg {
                    Config::File(f) => {
                        proof {
                            assert(src == ConfigV::File(f@));
                            assert(f@.path == cpv);
                        }
                        match f.read(fs) {
                            Ok(g) => {
                                proof {
                                    lemma_agree_sym(m, fs_pre, cpv);
                                    lemma_read_post_frame(
                                        ConfigV::File(f@),
                                        ConfigV::File(g@),
                                        fs_pre,
                                        m,
                                    );
                                    assert(fs_frame(fs_pre, fs@, cpv));
                                    assert(config_wf(ConfigV::File(g@)));
                                    if no_write_back(ConfigV::Directory(ov)) {
                                        if i < orig_len {
                                            assert(no_write_back(ov.entries[i as int].1));
                                        }
                                        assert(!f@.options.write_if_defaulted);
                                        assert(fs@ == fs_pre);
                                    }
                                }
                                child_defaulted = g.defaulted;
                                Config::File(g)
                            },
                            Err(e) => {
                                proof {
                                    assert(!file_read_ok(f@, fs_pre));
                                    if dir_read_ok(ov, m) {
                                        assert(config_read_ok(src, m)) by {
                                            if i < orig_len {
                                                assert(entry_descended(
                                                    ov.options.recursive,
                                                    ov.entries[i as int].1,
                                                ));
                                            } else {
                                                assert(discovered_fresh_entry(
                                                    ov,
                                                    base.entries[i as int],
                                                    m,
                                                ));
                                                assert(m[cpv] is File) by {
                                                    if m[cpv] is Dir {
                                                        assert(src == ConfigV::Directory(
                                                            fresh_dir_v::<F>(cpv),
                                                        ));
                                                    }
                                                }
                                                assert(disc_spec) by {
                                                    if !disc {
                                                        assert(n == reg_len);
                                                    }
                                                }
                                                lemma_discovered_file_ok::<F>(ov, key_v, m);
                                                assert(src == ConfigV::File(
                                                    fresh_file_v::<F>(cpv),
                                                ));
                                            }
                                        }
                                        lemma_read_ok_frame(src, m, fs_pre);
                                        assert(false);
                                    }
                                    lemma_frame_widen(fs_pre, fs@, ov.path, cpv);
                                    lemma_frame_trans(m, fs_pre, fs@, ov.path);
                                    assert(fs@ == fs_pre);
                                }
                                return Err(e);
                            },
                        }
                    },
                    Config::Directory(d) => {
                        proof {
                            assert(cfg == orig.configs@[i as int].1);
                            assert(decreases_to!(orig => orig.configs));
                            assert(decreases_to!(orig.configs => orig.configs[i as int]));
                            assert(decreases_to!(
                                orig.configs[i as int] => orig.configs@[i as int].1
                            ));
                            assert(decreases_to!(cfg => d));
                            assert(decreases_to!(orig => d));
                            assert(src == ConfigV::Directory(d@));
                            assert(d@.path == cpv);
                        }
                        match d.read(fs) {
                            Ok(g) => {
                                proof {
                                    lemma_agree_sym(m, fs_pre, cpv);
                                    lemma_read_post_frame(
                                        ConfigV::Directory(d@),
                                        ConfigV::Directory(g@),
                                        fs_pre,
                                        m,
                                    );
                                    assert(fs_frame(fs_pre, fs@, cpv));
                                    assert(config_wf(ConfigV::Directory(g@)));
                                    if no_write_back(ConfigV::Directory(ov)) {
                                        assert(no_write_back(ov.entries[i as int].1));
                                        assert(fs@ == fs_pre);
                                    }
                                }
                                child_defaulted = g.defaulted;
                                Config::Directory(g)
                            },
                            Err(e) => {
                                proof {
                                    assert(!dir_read_ok(d@, fs_pre));
                                    if dir_read_ok(ov, m) {
                                        assert(i < orig_len);
                                        assert(entry_descended(
                                            ov.options.recursive,
                                            ov.entries[i as int].1,
                                        ));
                                        assert(config_read_ok(src, m));
                                        lemma_read_ok_frame(src, m, fs_pre);
                                        assert(false);
                                    }
                                    lemma_frame_widen(fs_pre, fs@, ov.path, cpv);
                                    lemma_frame_trans(m, fs_pre, fs@, ov.path);
                                    if no_write_back(ConfigV::Directory(ov)) {
                                        assert(no_write_back(ov.entries[i as int].1));
                                        assert(fs@ == fs_pre);
                                    }
                                }
                                return Err(e);
                            },
                        }
                    },
                };
                proof {
                    assert(config_read_post(src, config_view(cfg2), m));
                    assert(config_defaulted(config_view(cfg2)) == child_defaulted);
                    assert(key@ == key_v);
                }
                let ghost s_mid = this.configs@;
                let ghost any_pre = any_defaulted;
                this.configs.insert(i, (key, cfg2));
                if child_defaulted {
                    any_defaulted = true;
                }
                proof {
                    lemma_entries_view_props(s_mid);
                    lemma_entries_view_props(this.configs@);
                    assert(s_mid == s_start.remove(i as int));
                    assert(this.configs@ == s_mid.insert(i as int, (key, cfg2)));
                    assert(this.configs@.len() == n);
                    assert(this.configs@[i as int] == (key, cfg2));
                    assert forall|j: int| i + 1 <= j < n implies (#[trigger] this.configs@[j])
                        == cfgs_base[j] by {
                        assert(this.configs@[j] == s_mid[j - 1]);
                        assert(s_mid[j - 1] == s_start[j]);
                        assert(s_start[j] == cfgs_base[j]);
                    }
                    assert forall|j: int| 0 <= j < i implies (#[trigger] this.configs@[j])
                        == s_start[j] by {
                        assert(this.configs@[j] == s_mid[j]);
                    }
                    assert forall|j: int| 0 <= j < i implies (#[trigger] entries_view(
                        this.configs@,
                    )[j]) == entries_view(s_start)[j] by {
                        assert(this.configs@[j] == s_start[j]);
                    }
                    assert(entries_view(this.configs@)[i as int] == (key_v, config_view(cfg2)));
                    // which children count as descended
                    assert(entry_descended(ov.options.recursive, src)) by {
                        if src is Directory {
                            assert(i < reg_len);
                        }
                    }
                    assert(entry_descended(ov.options.recursive, config_view(cfg2))) by {
                        if config_view(cfg2) is Directory {
                            assert(src is Directory);
                        }
                    }
                    // prefix keys
                    assert forall|j: int|
                        0 <= j < i + 1 implies (#[trigger] entries_view(this.configs@)[j]).0
                        == base.entries[j].0 by {
                        if j < i {
                            assert(entries_view(this.configs@)[j] == entries_view(s_start)[j]);
                        }
                    }
                    // registered children processed so far
                    assert forall|j: int|
                        0 <= j < i + 1 && j < orig_len implies (if entry_descended(
                        ov.options.recursive,
                        ov.entries[j].1,
                    ) {
                        config_read_post(
                            ov.entries[j].1,
                            (#[trigger] entries_view(this.configs@)[j]).1,
                            m,
                        )
                    } else {
                        (#[trigger] entries_view(this.configs@)[j]).1 == ov.entries[j].1
                    }) by {
                        if j < i {
                            assert(entries_view(this.configs@)[j] == entries_view(s_start)[j]);
                        } else {
                            assert(src == ov.entries[i as int].1);
                            assert(config_read_post(ov.entries[i as int].1, config_view(cfg2), m));
                        }
                    }
                    // discovered children processed so far
                    assert forall|j: int|
                        orig_len <= j < i + 1 implies discovered_entry_post(
                        ov,
                        #[trigger] entries_view(this.configs@)[j],
                        m,
                    ) by {
                        if j < i {
                            assert(entries_view(this.configs@)[j] == entries_view(s_start)[j]);
                        } else {
                            assert(discovered_fresh_entry(ov, base.entries[i as int], m));
                            assert(src is File) by {
                                if src is Directory {
                                    assert(i < reg_len);
                                }
                            }
                            assert(m[cpv] is File);
                            assert(src == ConfigV::File(fresh_file_v::<F>(cpv)));
                            assert(config_read_post(src, config_view(cfg2), m));
                        }
                    }
                    // the running defaulted flag
                    assert(any_defaulted == (any_pre || child_defaulted));
                    assert((any_pre || child_defaulted) == exists|j: int|
                        0 <= j < i + 1 && entry_descended(
                            ov.options.recursive,
                            (#[trigger] entries_view(this.configs@)[j]).1,
                        ) && config_defaulted(entries_view(this.configs@)[j].1)) by {
                        if any_pre {
                            let w = choose|j: int|
                                0 <= j < i && entry_descended(
                                    ov.options.recursive,
                                    (#[trigger] entries_view(s_start)[j]).1,
                                ) && config_defaulted(entries_view(s_start)[j].1);
                            assert(entries_view(this.configs@)[w] == entries_view(s_start)[w]);
                            assert(entry_descended(
                                ov.options.recursive,
                                entries_view(this.configs@)[w].1,
                            ) && config_defaulted(entries_view(this.configs@)[w].1));
                        }
                        if child_defaulted {
                            assert(entry_descended(
                                ov.options.recursive,
                                entries_view(this.configs@)[i as int].1,
                            ) && config_defaulted(entries_view(this.configs@)[i as int].1));
                        }
                        if exists|j: int|
                            0 <= j < i + 1 && entry_descended(
                                ov.options.recursive,
                                (#[trigger] entries_view(this.configs@)[j]).1,
                            ) && config_defaulted(entries_view(this.configs@)[j].1) {
                            let w = choose|j: int|
                                0 <= j < i + 1 && entry_descended(
                                    ov.options.recursive,
                                    (#[trigger] entries_view(this.configs@)[j]).1,
                                ) && config_defaulted(entries_view(this.configs@)[j].1);
                            if w < i {
                                assert(entries_view(s_start)[w] == entries_view(this.configs@)[w]);
                            } else {
                                assert(config_defaulted(config_view(cfg2)) == child_defaulted);
                            }
                        }
                    }
                    // well-formedness of the updated tree
                    assert(config_wf(config_view(cfg2)));
                    assert(config_path_of(config_view(cfg2)) == cpv);
                    assert forall|a: int|
                        0 <= a < n implies (#[trigger] entries_view(this.configs@)[a]).0
                        == base.entries[a].0 && config_wf(entries_view(this.configs@)[a].1)
                        && config_path_of(entries_view(this.configs@)[a].1) == ov.path.push(
                        entries_view(this.configs@)[a].0,
                    ) by {
                        if a < i {
                            assert(entries_view(this.configs@)[a] == entries_view(s_start)[a]);
                            assert((#[trigger] entries_view(s_start)[a]).0 == base.entries[a].0);
                            assert(config_wf(entries_view(s_start)[a].1));
                            assert(config_path_of(entries_view(s_start)[a].1) == ov.path.push(
                                entries_view(s_start)[a].0,
                            ));
                        } else if a > i {
                            assert(this.configs@[a] == cfgs_base[a]);
                            assert(entries_view(this.configs@)[a] == entries_view(cfgs_base)[a]);
                            assert(entries_view(cfgs_base)[a] == base.entries[a]);
                            assert(config_path_of(base.entries[a].1) == base.path.push(
                                base.entries[a].0,
                            ));
                            assert(config_wf(base.entries[a].1));
                            assert(base.path == ov.path);
                        } else {
                            assert(entries_view(this.configs@)[a] == (key_v, config_view(cfg2)));
                        }
                    }
                    // sibling subtrees are untouched
                    assert forall|j: int| i + 1 <= j < n implies agree_on_cone(
                        m,
                        fs@,
                        ov.path.push((#[trigger] cfgs_base[j]).0@),
                    ) by {
                        assert(cfgs_base[j].0@ == base.entries[j].0);
                        assert(base.entries[i as int].0 != base.entries[j].0);
                        assert(agree_on_cone(m, fs_pre, ov.path.push(cfgs_base[j].0@)));
                        lemma_sibling_frame(m, fs_pre, fs@, ov.path, key_v, cfgs_base[j].0@);
                    }
                    // the whole step stays in this directory's frame
                    lemma_frame_widen(fs_pre, fs@, ov.path, cpv);
                    lemma_frame_trans(m, fs_pre, fs@, ov.path);
                    assert(crate::fs::dirs_preserved(m, fs@)) by {
                        assert forall|q: Seq<Seq<char>>| #[trigger]
                            crate::fs::fs_is_dir(m, q) implies crate::fs::fs_is_dir(fs@, q) by {
                            assert(crate::fs::fs_is_dir(fs_pre, q));
                        }
                    }
                    if no_write_back(ConfigV::Directory(ov)) {
                        assert(fs@ == m);
                    }
                }
            } else {
                proof {
                    assert(fs@ == fs_pre);
                    assert(this.configs@ == s_start);
                    assert(src is Directory);
                    assert forall|j: int|
                        0 <= j < i + 1 implies (#[trigger] entries_view(this.configs@)[j]).0
                        == base.entries[j].0 by {}
                    assert forall|j: int|
                        0 <= j < i + 1 && j < orig_len implies (if entry_descended(
                        ov.options.recursive,
                        ov.entries[j].1,
                    ) {
                        config_read_post(
                            ov.entries[j].1,
                            (#[trigger] entries_view(this.configs@)[j]).1,
                            m,
                        )
                    } else {
                        (#[trigger] entries_view(this.configs@)[j]).1 == ov.entries[j].1
                    }) by {
                        if j == i {
                            assert(src == ov.entries[i as int].1);
                            assert(!entry_descended(ov.options.recursive, ov.entries[j].1));
                            assert(entries_view(this.configs@)[j] == base.entries[j]);
                        }
                    }
                    assert forall|j: int|
                        orig_len <= j < i + 1 implies discovered_entry_post(
                        ov,
                        #[trigger] entries_view(this.configs@)[j],
                        m,
                    ) by {
                        if j == i {
                            assert(discovered_fresh_entry(ov, base.entries[i as int], m));
                            assert(m[cpv] is Dir) by {
                                if m[cpv] is File {
                                    assert(src == ConfigV::File(fresh_file_v::<F>(cpv)));
                                }
                            }
                            assert(entries_view(this.configs@)[j] == base.entries[j]);
                        }
                    }
                    assert(any_defaulted == exists|j: int|
                        0 <= j < i + 1 && entry_descended(
                            ov.options.recursive,
                            (#[trigger] entries_view(this.configs@)[j]).1,
                        ) && config_defaulted(entries_view(this.configs@)[j].1)) by {
                        if exists|j: int|
                            0 <= j < i + 1 && entry_descended(
                                ov.options.recursive,
                                (#[trigger] entries_view(this.configs@)[j]).1,
                            ) && config_defaulted(entries_view(this.configs@)[j].1) {
                            let w = choose|j: int|
                                0 <= j < i + 1 && entry_descended(
                                    ov.options.recursive,
                                    (#[trigger] entries_view(this.configs@)[j]).1,
                                ) && config_defaulted(entries_view(this.configs@)[j].1);
                            if w == i {
                                assert(entries_view(this.configs@)[w] == base.entries[w]);
                                if i < orig_len {
                                    assert(!entry_descended(
                                        ov.options.recursive,
                                        ov.entries[i as int].1,
                                    ));
                                } else {
                                    assert(!config_defaulted(base.entries[i as int].1));
                                }
                                assert(false);
                            }
                        }
                        if any_defaulted {
                            let w = choose|j: int|
                                0 <= j < i && entry_descended(
                                    ov.options.recursive,
                                    (#[trigger] entries_view(s_start)[j]).1,
                                ) && config_defaulted(entries_view(s_start)[j].1);
                            assert(entry_descended(
                                ov.options.recursive,
                                entries_view(this.configs@)[w].1,
                            ) && config_defaulted(entries_view(this.configs@)[w].1));
                        }
                    }
                }
            }
            i += 1;
        }
        let ghost pre_df = this@;
        this.defaulted = any_defaulted;
        proof {
            lemma_entries_view_props(this.configs@);
            let r1 = this@;
            assert(r1.entries == pre_df.entries && r1.path == pre_df.path && r1.options
                == pre_df.options);
            assert(r1.entries.len() == n);
            assert(dir_read_post(ov, r1, m)) by {
                assert(r1.path == ov.path);
                assert(r1.options == ov.options);
                if !disc_spec {
                    assert(n == orig_len);
                }
                assert forall|j: int|
                    orig_len <= j < n implies disc_spec && discovered_entry_post(
                    ov,
                    #[trigger] r1.entries[j],
                    m,
                ) by {
                    assert(discovered_entry_post(ov, r1.entries[j], m));
                    if !disc_spec {
                        assert(n == orig_len);
                    }
                }
                if disc_spec {
                    assert forall|name: Seq<char>|
                        m.contains_key(#[trigger] ov.path.push(name)) && !has_key(
                            ov.entries,
                            name,
                        ) implies exists|j: int|
                        orig_len <= j < r1.entries.len() && (#[trigger] r1.entries[j]).0
                            == name by {
                        let w = choose|j: int|
                            orig_len <= j < base.entries.len() && (#[trigger] base.entries[j]).0
                                == name;
                        assert(r1.entries[w].0 == name);
                    }
                }
                assert forall|a: int, b: int|
                    orig_len <= a < b < n implies (#[trigger] r1.entries[a]).0
                    != (#[trigger] r1.entries[b]).0 by {
                    assert(base.entries[a].0 != base.entries[b].0);
                }
                assert(r1.defaulted == any_defaulted);
            }
            assert(dir_wf(this@)) by {
                assert(r1.entries == entries_view(this.configs@));
                assert forall|a: int, b: int|
                    0 <= a < b < r1.entries.len() implies (#[trigger] r1.entries[a]).0
                    != (#[trigger] r1.entries[b]).0 by {
                    assert((#[trigger] entries_view(this.configs@)[a]).0 == base.entries[a].0);
                    assert((#[trigger] entries_view(this.configs@)[b]).0 == base.entries[b].0);
                    assert(base.entries[a].0 != base.entries[b].0);
                }
                assert forall|a: int|
                    0 <= a < r1.entries.len() implies config_path_of(
                    (#[trigger] r1.entries[a]).1,
                ) == r1.path.push(r1.entries[a].0) && config_wf(r1.entries[a].1) by {
                    assert(config_wf((#[trigger] entries_view(this.configs@)[a]).1));
                    assert(config_path_of(entries_view(this.configs@)[a].1) == ov.path.push(
                        entries_view(this.configs@)[a].0,
                    ));
                    assert(r1.path == ov.path);
                }
            }
        }
        if this.defaulted && this.options.write_if_defaulted {
            let ghost pre_wb = this@;
            let ghost fs_wb = fs@;
            proof {
                assert(!dir_read_ok(ov, m));
            }
            let written = this.write(fs);
            proof {
                assert(fs_frame(fs_wb, fs@, ov.path));
                lemma_frame_trans(m, fs_wb, fs@, ov.path);
            }
            match written {
                Ok(d) => {
                    proof {
                        assert(d@ == pre_wb);
                    }
                    return Ok(d);
                },
                Err(e) => {
                    return Err(e);
                },
            }
        }
        Ok(this)
    }

    /// True when some registered child's path equals `path`.
    pub fn has_config(&self, path: &ConfigPath) -> (r: bool)
        ensures
            r == exists|i: int|
                0 <= i < self@.entries.len() && config_path_of((#[trigger] self@.entries[i]).1)
                    == path@,
    {
        proof {
            lemma_entries_view_props(self.configs@);
        }
        let n = self.configs.len();
        let mut i: usize = 0;
        while i < n
            invariant
                n == self.configs@.len(),
                i <= n,
                forall|j: int|
                    0 <= j < i ==> config_path_of((#[trigger] entries_view(self.configs@)[j]).1)
                        != path@,
            decreases n - i,
        {
            proof {
                lemma_entries_view_props(self.configs@);
            }
            let config_path: &ConfigPath = match &self.configs[i].1 {
                Config::File(f) => &f.path,
                Config::Directory(d) => &d.path,
            };
            if config_path.path_eq(path) {
                proof {
                    assert(config_path_of(self@.entries[i as int].1) == path@);
                }
                return true;
            }
            i += 1;
        }
        false
    }

    /// The child registered under `name`, if any.
    pub fn get(&self, name: &str) -> (r: Option<&Config<F>>)
        ensures
            match r {
                Some(c) => exists|i: int|
                    0 <= i < self@.entries.len() && (#[trigger] self@.entries[i]).0 == name@ && c@
                        == self@.entries[i].1,
                None => !has_key(self@.entries, name@),
            },
    {
        proof {
            lemma_entries_view_props(self.configs@);
        }
        let name_string: String = name.to_owned();
        let n = self.configs.len();
        let mut i: usize = 0;
        while i < n
            invariant
                n == self.configs@.len(),
                i <= n,
                name_string@ == name@,
                forall|j: int| 0 <= j < i ==> (#[trigger] entries_view(self.configs@)[j]).0 != name@,
            decreases n - i,
        {
            proof {
                lemma_entries_view_props(self.configs@);
            }
            if self.configs[i].0.eq(&name_string) {
                proof {
                    assert(self@.entries[i as int].0 == name@);
                }
                return Some(&self.configs[i].1);
            }
            i += 1;
        }
        proof {
            if has_key(self@.entries, name@) {
                let w = choose|w: int|
                    0 <= w < self@.entries.len() && (#[trigger] self@.entries[w]).0 == name@;
            }
        }
        None
    }

    /// The names of the children whose paths sit directly under this
    /// directory's path; in a well-formed tree, simply all registered
    /// names.
    pub fn children(&self) -> (r: Vec<String>)
        ensures
            r.deep_view() == children_keys(self@.path, self@.entries),
    {
        proof {
            lemma_entries_view_props(self.configs@);
        }
        let mut out: Vec<String> = Vec::new();
        let n = self.configs.len();
        let mut i: usize = 0;
        while i < n
            invariant
                n == self.configs@.len(),
                i <= n,
                out.deep_view() == children_keys(
                    self@.path,
                    entries_view(self.configs@).subrange(0, i as int),
                ),
            decreases n - i,
        {
            proof {
                lemma_entries_view_props(self.configs@);
            }
            let ghost pre = out.deep_view();
            let ghost ents = entries_view(self.configs@);
            let config_path: &ConfigPath = match &self.configs[i].1 {
                Config::File(f) => &f.path,
                Config::Directory(d) => &d.path,
            };
            let cp_len = config_path.len();
            if cp_len >= 1 && self.path.len() == cp_len - 1 && self.path.is_ancestor_of(
                config_path,
            ) {
                proof {
                    assert(parent_of(config_path@) =~= self@.path);
                }
                out.push(self.configs[i].0.clone());
                proof {
                    assert(out.deep_view() =~= pre.push(self.configs@[i as int].0@));
                }
            } else {
                proof {
                    if config_path_of(ents[i as int].1).len() >= 1 && parent_of(
                        config_path_of(ents[i as int].1),
                    ) == self@.path {
                        assert(is_strict_prefix_of(self.path@, config_path@)) by {
                            assert(config_path@.subrange(0, self.path@.len() as int) =~= parent_of(
                                config_path@,
                            ));
                        }
                        assert(false);
                    }
                }
            }
            proof {
                assert(ents.subrange(0, i as int) =~= ents.subrange(0, i + 1).drop_last());
                assert(ents.subrange(0, i + 1).last() == ents[i as int]);
            }
            i += 1;
        }
        proof {
            assert(entries_view(self.configs@).subrange(0, n as int) =~= entries_view(
                self.configs@,
            ));
        }
        out
    }
}

} // verus!
