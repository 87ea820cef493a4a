//! An in-memory filesystem model.
//!
//! [`Fs`] stores files (byte vectors) and directories keyed by
//! [`ConfigPath`]. Its view is a map from path views to entries, and the
//! well-formedness predicate [`Fs::wf`] — established by the constructor and
//! preserved by every operation — keeps the store shaped like a real
//! filesystem: every entry sits below a chain of directories, and the root
//! (the empty path) is always a directory. Reads, writes, directory creation
//! and listing carry exact contracts, so the tree-reconciliation logic above
//! can be verified against this model; mirroring the model onto a real disk
//! is left to unverified callers.

use vstd::prelude::*;

use crate::errors::ConfigError;
use crate::path::{ConfigPath, is_prefix_of, is_strict_prefix_of, parent_of};

verus! {

/// One entry of the filesystem: a file with its bytes, or a directory.
pub enum FsEntry {
    File(Vec<u8>),
    Dir,
}

/// The view of an entry: file bytes as a sequence, or a directory.
pub enum EntryV {
    File(Seq<u8>),
    Dir,
}

impl View for FsEntry {
    type V = EntryV;

    open spec fn view(&self) -> EntryV {
        match self {
            FsEntry::File(b) => EntryV::File(b@),
            FsEntry::Dir => EntryV::Dir,
        }
    }
}

/// The abstract state of a filesystem: a map from path views to entries.
/// The root (empty path) is implicit and always a directory.
pub type FsView = Map<Seq<Seq<char>>, EntryV>;

/// True when `p` is a directory in `m`: the root, or a present `Dir` entry.
pub open spec fn fs_is_dir(m: FsView, p: Seq<Seq<char>>) -> bool {
    p.len() == 0 || (m.contains_key(p) && m[p] is Dir)
}

/// True when `p` is a file in `m`.
pub open spec fn fs_is_file(m: FsView, p: Seq<Seq<char>>) -> bool {
    m.contains_key(p) && m[p] is File
}

/// Every directory of `m1` is still a directory in `m2`. All filesystem
/// mutations of this crate only add directories or replace files, so they
/// preserve this relation.
pub open spec fn dirs_preserved(m1: FsView, m2: FsView) -> bool {
    forall|q: Seq<Seq<char>>| #[trigger] fs_is_dir(m1, q) ==> fs_is_dir(m2, q)
}

/// When a whole-file write to `p` succeeds: `p` is non-empty, its parent is
/// a directory, and `p` itself is not a directory.
pub open spec fn spec_can_write(m: FsView, p: Seq<Seq<char>>) -> bool {
    &&& p.len() > 0
    &&& fs_is_dir(m, parent_of(p))
    &&& !(m.contains_key(p) && m[p] is Dir)
}

/// The error a failed whole-file write to `p` reports.
pub open spec fn spec_write_err(m: FsView, p: Seq<Seq<char>>) -> ConfigError {
    if p.len() == 0 || (m.contains_key(p) && m[p] is Dir) {
        ConfigError::NotAFile
    } else {
        ConfigError::MissingParent
    }
}

/// When recursive directory creation for `p` succeeds: no non-empty prefix
/// of `p` is occupied by a file.
pub open spec fn spec_can_mkdir(m: FsView, p: Seq<Seq<char>>) -> bool {
    forall|k: int| 1 <= k <= p.len() ==> !fs_is_file(m, #[trigger] p.subrange(0, k))
}

/// The filesystem after recursive directory creation for `p`: every missing
/// non-empty prefix of `p` becomes a directory; everything else is kept.
pub open spec fn spec_mkdir(m: FsView, p: Seq<Seq<char>>) -> FsView {
    Map::new(
        |q: Seq<Seq<char>>| m.contains_key(q) || (is_prefix_of(q, p) && q.len() >= 1),
        |q: Seq<Seq<char>>|
            if m.contains_key(q) {
                m[q]
            } else {
                EntryV::Dir
            },
    )
}

/// The outcome of a whole-file read of `p`: the bytes of a present file, or
/// the error the filesystem reports.
pub open spec fn spec_read_file(m: FsView, p: Seq<Seq<char>>) -> Result<Seq<u8>, ConfigError> {
    if m.contains_key(p) {
        match m[p] {
            EntryV::File(b) => Ok(b),
            EntryV::Dir => Err(ConfigError::NotAFile),
        }
    } else if p.len() == 0 {
        Err(ConfigError::NotAFile)
    } else {
        Err(ConfigError::NotFound)
    }
}

/// Relates an executable read result to its specification-level outcome.
pub open spec fn res_bytes_matches(
    r: Result<Vec<u8>, ConfigError>,
    s: Result<Seq<u8>, ConfigError>,
) -> bool {
    match (r, s) {
        (Ok(b), Ok(bs)) => b@ == bs,
        (Err(e), Err(e2)) => e == e2,
        _ => false,
    }
}

/// The map described by a listing of entries, later entries winning.
spec fn entries_map(s: Seq<(ConfigPath, FsEntry)>) -> FsView
    decreases s.len(),
{
    if s.len() == 0 {
        Map::empty()
    } else {
        entries_map(s.drop_last()).insert(s.last().0@, s.last().1@)
    }
}

/// No two entries of the listing share a path.
spec fn unique_paths(s: Seq<(ConfigPath, FsEntry)>) -> bool {
    forall|i: int, j: int| 0 <= i < j < s.len() ==> (#[trigger] s[i].0@) != (#[trigger] s[j].0@)
}

proof fn lemma_entries_map_props(s: Seq<(ConfigPath, FsEntry)>)
    requires
        unique_paths(s),
    ensures
        forall|i: int|
            0 <= i < s.len() ==> entries_map(s).contains_key(#[trigger] s[i].0@) && entries_map(
                s,
            )[s[i].0@] == s[i].1@,
        forall|k: Seq<Seq<char>>| #[trigger]
            entries_map(s).contains_key(k) ==> exists|i: int|
                0 <= i < s.len() && (#[trigger] s[i].0@) == k,
    decreases s.len(),
{
    if s.len() > 0 {
        let s0 = s.drop_last();
        lemma_entries_map_props(s0);
        assert forall|i: int|
            0 <= i < s.len() implies entries_map(s).contains_key(#[trigger] s[i].0@)
            && entries_map(s)[s[i].0@] == s[i].1@ by {
            if i < s.len() - 1 {
                assert(s0[i] == s[i]);
                assert(s[i].0@ != s.last().0@);
            }
        }
        assert forall|k: Seq<Seq<char>>| #[trigger]
            entries_map(s).contains_key(k) implies exists|i: int|
            0 <= i < s.len() && (#[trigger] s[i].0@) == k by {
            if k == s.last().0@ {
                assert(s[s.len() - 1].0@ == k);
            } else {
                assert(entries_map(s0).contains_key(k));
                let i = choose|i: int| 0 <= i < s0.len() && (#[trigger] s0[i].0@) == k;
                assert(s[i].0@ == k);
            }
        }
    }
}

proof fn lemma_entries_map_push(s: Seq<(ConfigPath, FsEntry)>, x: (ConfigPath, FsEntry))
    ensures
        entries_map(s.push(x)) == entries_map(s).insert(x.0@, x.1@),
{
    assert(s.push(x).drop_last() =~= s);
    assert(s.push(x).last() == x);
}

proof fn lemma_entries_map_remove(s: Seq<(ConfigPath, FsEntry)>, i: int)
    requires
        unique_paths(s),
        0 <= i < s.len(),
    ensures
        entries_map(s.remove(i)) == entries_map(s).remove(s[i].0@),
    decreases s.len(),
{
    lemma_entries_map_props(s);
    let s0 = s.drop_last();
    if i == s.len() - 1 {
        assert(s.remove(i) =~= s0);
        lemma_entries_map_props(s0);
        assert(!entries_map(s0).contains_key(s[i].0@)) by {
            if entries_map(s0).contains_key(s[i].0@) {
                let j = choose|j: int| 0 <= j < s0.len() && (#[trigger] s0[j].0@) == s[i].0@;
                assert(s[j].0@ == s[i].0@);
            }
        }
        assert(entries_map(s0) =~= entries_map(s).remove(s[i].0@));
    } else {
        lemma_entries_map_remove(s0, i);
        assert(s.remove(i).drop_last() =~= s0.remove(i));
        assert(s.remove(i).last() == s.last());
        assert(entries_map(s.remove(i)) == entries_map(s0.remove(i)).insert(
            s.last().0@,
            s.last().1@,
        ));
        assert(s0[i] == s[i]);
        assert(s[i].0@ != s.last().0@);
        assert(entries_map(s0).remove(s[i].0@).insert(s.last().0@, s.last().1@) =~= entries_map(
            s0,
        ).insert(s.last().0@, s.last().1@).remove(s[i].0@));
    }
}

/// A name listed out of a directory, and whether it is itself a directory.
#[derive(Debug)]
pub struct DirEntry {
    pub name: String,
    pub is_dir: bool,
}

/// The in-memory filesystem.
pub struct Fs {
    entries: Vec<(ConfigPath, FsEntry)>,
}

impl View for Fs {
    type V = FsView;

    closed spec fn view(&self) -> FsView {
        entries_map(self.entries@)
    }
}

impl Fs {
    /// The filesystem invariant: entry paths are unique and non-empty, and
    /// every strict non-empty prefix of an entry's path is a directory.
    /// Every `Fs` handed out by this module satisfies it.
    pub closed spec fn wf(self) -> bool {
        &&& unique_paths(self.entries@)
        &&& forall|i: int|
            0 <= i < self.entries@.len() ==> (#[trigger] self.entries@[i].0@).len() >= 1
        &&& forall|i: int, k: int|
            0 <= i < self.entries@.len() && 1 <= k < self.entries@[i].0@.len() ==> fs_is_dir(
                entries_map(self.entries@),
                #[trigger] self.entries@[i].0@.subrange(0, k),
            )
    }

    /// An empty filesystem: just the root directory.
    pub fn new() -> (r: Fs)
        ensures
            r@ == Map::<Seq<Seq<char>>, EntryV>::empty(),
            r.wf(),
    {
        let r = Fs { entries: Vec::new() };
        proof {
            assert(r@ =~= Map::<Seq<Seq<char>>, EntryV>::empty());
        }
        r
    }

    /// Well-formedness of the view, published for callers: every present
    /// path is non-empty and sits below a chain of directories.
    pub proof fn lemma_wf(&self)
        requires
            self.wf(),
        ensures
            forall|p: Seq<Seq<char>>| #[trigger]
                self@.contains_key(p) ==> p.len() >= 1 && (forall|k: int|
                    1 <= k < p.len() ==> fs_is_dir(self@, #[trigger] p.subrange(0, k))),
    {
        lemma_entries_map_props(self.entries@);
        assert forall|p: Seq<Seq<char>>| #[trigger]
            self@.contains_key(p) implies p.len() >= 1 && (forall|k: int|
            1 <= k < p.len() ==> fs_is_dir(self@, #[trigger] p.subrange(0, k))) by {
            let i = choose|i: int|
                0 <= i < self.entries@.len() && (#[trigger] self.entries@[i].0@) == p;
        }
    }

    /// The index of the entry at `p`, if any.
    fn find(&self, p: &ConfigPath) -> (r: Option<usize>)
        requires
            self.wf(),
        ensures
            match r {
                Some(i) => i < self.entries@.len() && self.entries@[i as int].0@ == p@
                    && self@.contains_key(p@) && self@[p@] == self.entries@[i as int].1@,
                None => !self@.contains_key(p@),
            },
    {
        proof {
            lemma_entries_map_props(self.entries@);
        }
        let mut i: usize = 0;
        while i < self.entries.len()
            invariant
                i <= self.entries@.len(),
                unique_paths(self.entries@),
                forall|j: int| 0 <= j < i ==> (#[trigger] self.entries@[j].0@) != p@,
            decreases self.entries@.len() - i,
        {
            if self.entries[i].0.path_eq(p) {
                proof {
                    lemma_entries_map_props(self.entries@);
                }
                return Some(i);
            }
            i += 1;
        }
        proof {
            if self@.contains_key(p@) {
                lemma_entries_map_props(self.entries@);
                let j = choose|j: int|
                    0 <= j < self.entries@.len() && (#[trigger] self.entries@[j].0@) == p@;
            }
        }
        None
    }

    /// True when anything (file or directory) is present at `p`; the root
    /// is always present.
    pub fn exists_at(&self, p: &ConfigPath) -> (r: bool)
        requires
            self.wf(),
        ensures
            r == (p@.len() == 0 || self@.contains_key(p@)),
    {
        if p.len() == 0 {
            true
        } else {
            self.find(p).is_some()
        }
    }

    /// True when `p` is a directory (the root always is).
    pub fn is_dir(&self, p: &ConfigPath) -> (r: bool)
        requires
            self.wf(),
        ensures
            r == fs_is_dir(self@, p@),
    {
        if p.len() == 0 {
            return true;
        }
        match self.find(p) {
            Some(i) => match &self.entries[i].1 {
                FsEntry::Dir => true,
                FsEntry::File(_) => false,
            },
            None => false,
        }
    }

    /// Reads the bytes of the file at `p`.
    pub fn read(&self, p: &ConfigPath) -> (r: Result<Vec<u8>, ConfigError>)
        requires
            self.wf(),
        ensures
            res_bytes_matches(r, spec_read_file(self@, p@)),
    {
        match self.find(p) {
            Some(i) => match &self.entries[i].1 {
                FsEntry::File(b) => {
                    let out = vstd::slice::slice_to_vec(b.as_slice());
                    Ok(out)
                },
                FsEntry::Dir => Err(ConfigError::NotAFile),
            },
            None => {
                if p.len() == 0 {
                    Err(ConfigError::NotAFile)
                } else {
                    Err(ConfigError::NotFound)
                }
            },
        }
    }

    /// Writes `bytes` as the whole contents of the file at `p`, creating or
    /// truncating it. Fails if `p` is a directory or its parent is missing;
    /// on failure nothing changes.
    pub fn write(&mut self, p: &ConfigPath, bytes: Vec<u8>) -> (r: Result<(), ConfigError>)
        requires
            old(self).wf(),
        ensures
            final(self).wf(),
            r is Ok <==> spec_can_write(old(self)@, p@),
            r is Ok ==> final(self)@ == old(self)@.insert(p@, EntryV::File(bytes@)),
            r matches Err(e) ==> final(self)@ == old(self)@ && e == spec_write_err(old(self)@, p@),
            dirs_preserved(old(self)@, final(self)@),
    {
        proof {
            lemma_entries_map_props(self.entries@);
        }
        let ghost m0 = self@;
        let ghost s0 = self.entries@;
        if p.len() == 0 {
            return Err(ConfigError::NotAFile);
        }
        match self.find(p) {
            Some(i) => {
                let is_dir_entry = match &self.entries[i].1 {
                    FsEntry::Dir => true,
                    FsEntry::File(_) => false,
                };
                if is_dir_entry {
                    return Err(ConfigError::NotAFile);
                }
                let ghost bv = bytes@;
                let (op, _old_entry) = self.entries.remove(i);
                self.entries.push((op, FsEntry::File(bytes)));
                proof {
                    let s1 = s0.remove(i as int);
                    let v = self.entries@.last();
                    assert(self.entries@ == s1.push(v));
                    lemma_entries_map_remove(s0, i as int);
                    lemma_entries_map_push(s1, v);
                    assert(self@ =~= m0.insert(p@, EntryV::File(bv)));
                    lemma_replace_keeps_inv(s0, i as int, v);
                    assert(fs_is_dir(m0, parent_of(p@))) by {
                        if p@.len() >= 2 {
                            assert(fs_is_dir(m0, s0[i as int].0@.subrange(0, p@.len() - 1)));
                            assert(p@.subrange(0, p@.len() - 1) =~= parent_of(p@));
                        }
                    }
                    assert(dirs_preserved(m0, self@)) by {
                        assert forall|q: Seq<Seq<char>>| #[trigger]
                            fs_is_dir(m0, q) implies fs_is_dir(self@, q) by {
                            if q.len() > 0 {
                                assert(m0[p@] is File);
                                assert(q != p@);
                            }
                        }
                    }
                }
                Ok(())
            },
            None => {
                let par = p.parent();
                if !self.is_dir(&par) {
                    return Err(ConfigError::MissingParent);
                }
                let ghost bv = bytes@;
                self.entries.push((p.clone(), FsEntry::File(bytes)));
                proof {
                    let v = self.entries@.last();
                    assert(self.entries@ == s0.push(v));
                    lemma_entries_map_push(s0, v);
                    assert(self@ =~= m0.insert(p@, EntryV::File(bv)));
                    lemma_append_keeps_inv(s0, v);
                    assert(dirs_preserved(m0, self@)) by {
                        assert forall|q: Seq<Seq<char>>| #[trigger]
                            fs_is_dir(m0, q) implies fs_is_dir(self@, q) by {
                            if q.len() > 0 {
                                assert(q != p@);
                            }
                        }
                    }
                }
                Ok(())
            },
        }
    }

    /// True when recursive directory creation for `p` would succeed.
    fn mkdir_check(&self, p: &ConfigPath) -> (r: bool)
        requires
            self.wf(),
        ensures
            r == spec_can_mkdir(self@, p@),
    {
        let n = p.len();
        let mut idx: usize = 0;
        while idx < n
            invariant
                self.wf(),
                idx <= n == p@.len(),
                forall|k: int| 1 <= k <= idx ==> !fs_is_file(self@, #[trigger] p@.subrange(0, k)),
            decreases n - idx,
        {
            let prefix = p.prefix(idx + 1);
            match self.find(&prefix) {
                Some(i) => {
                    let is_file_entry = match &self.entries[i].1 {
                        FsEntry::File(_) => true,
                        FsEntry::Dir => false,
                    };
                    if is_file_entry {
                        assert(fs_is_file(self@, p@.subrange(0, idx + 1)));
                        return false;
                    }
                },
                None => {},
            }
            idx += 1;
        }
        true
    }

    /// Creates the directory at `p` together with all missing ancestors
    /// (`mkdir -p`); a no-op for directories that already exist. Fails
    /// without changing anything if a file occupies any component of `p`.
    pub fn make_dir_all(&mut self, p: &ConfigPath) -> (r: Result<(), ConfigError>)
        requires
            old(self).wf(),
        ensures
            final(self).wf(),
            r is Ok <==> spec_can_mkdir(old(self)@, p@),
            r is Ok ==> final(self)@ == spec_mkdir(old(self)@, p@),
            r matches Err(e) ==> final(self)@ == old(self)@ && e == ConfigError::NotADirectory,
            dirs_preserved(old(self)@, final(self)@),
    {
        let ghost m0 = self@;
        if !self.mkdir_check(p) {
            return Err(ConfigError::NotADirectory);
        }
        let n = p.len();
        let mut idx: usize = 0;
        while idx < n
            invariant
                self.wf(),
                idx <= n == p@.len(),
                spec_can_mkdir(m0, p@),
                self@ =~= spec_mkdir_partial(m0, p@, idx as int),
            decreases n - idx,
        {
            let prefix = p.prefix(idx + 1);
            let ghost q = p@.subrange(0, idx + 1);
            let ghost mpre = self@;
            match self.find(&prefix) {
                Some(_) => {
                    proof {
                        assert(m0.contains_key(q));
                        assert(self@ =~= spec_mkdir_partial(m0, p@, idx + 1));
                    }
                },
                None => {
                    proof {
                        lemma_entries_map_props(self.entries@);
                    }
                    let ghost s0 = self.entries@;
                    self.entries.push((prefix, FsEntry::Dir));
                    proof {
                        let v = self.entries@.last();
                        assert(self.entries@ == s0.push(v));
                        lemma_entries_map_push(s0, v);
                        assert(fs_is_dir(mpre, parent_of(q))) by {
                            if idx > 0 {
                                let par = p@.subrange(0, idx as int);
                                assert(parent_of(q) =~= par);
                                assert(is_prefix_of(par, p@));
                                assert(mpre.contains_key(par));
                                if m0.contains_key(par) {
                                    assert(!fs_is_file(m0, p@.subrange(0, idx as int)));
                                    assert(mpre[par] == m0[par]);
                                } else {
                                    assert(mpre[par] is Dir);
                                }
                            } else {
                                assert(parent_of(q) =~= Seq::<Seq<char>>::empty());
                            }
                        }
                        lemma_append_keeps_inv(s0, v);
                        assert(self@ =~= spec_mkdir_partial(m0, p@, idx + 1));
                    }
                },
            }
            idx += 1;
        }
        proof {
            assert(self@ =~= spec_mkdir(m0, p@));
            assert(dirs_preserved(m0, self@)) by {
                assert forall|q: Seq<Seq<char>>| #[trigger]
                    fs_is_dir(m0, q) implies fs_is_dir(self@, q) by {}
            }
        }
        Ok(())
    }

    /// Lists the names directly inside the directory at `p`, each with
    /// whether it is itself a directory. The order is unspecified.
    pub fn list(&self, p: &ConfigPath) -> (r: Vec<DirEntry>)
        requires
            self.wf(),
        ensures
            forall|i: int|
                0 <= i < r@.len() ==> self@.contains_key(p@.push(#[trigger] r@[i].name@)) && (
                r@[i].is_dir <==> self@[p@.push(r@[i].name@)] is Dir),
            forall|k: Seq<Seq<char>>|
                #![trigger self@.contains_key(k)]
                self@.contains_key(k) && k.len() == p@.len() + 1 && is_prefix_of(p@, k)
                    ==> exists|i: int| 0 <= i < r@.len() && (#[trigger] r@[i].name@) == k.last(),
            forall|i: int, j: int|
                0 <= i < j < r@.len() ==> (#[trigger] r@[i].name@) != (#[trigger] r@[j].name@),
    {
        proof {
            lemma_entries_map_props(self.entries@);
        }
        let mut out: Vec<DirEntry> = Vec::new();
        let mut j: usize = 0;
        while j < self.entries.len()
            invariant
                self.wf(),
                j <= self.entries@.len(),
                forall|i: int|
                    0 <= i < out@.len() ==> self@.contains_key(p@.push(#[trigger] out@[i].name@))
                        && (out@[i].is_dir <==> self@[p@.push(out@[i].name@)] is Dir),
                forall|i: int|
                    0 <= i < out@.len() ==> exists|e: int|
                        0 <= e < j && (#[trigger] self.entries@[e].0@) == p@.push(
                            #[trigger] out@[i].name@,
                        ),
                forall|e: int|
                    #![trigger self.entries@[e].0@]
                    0 <= e < j && self.entries@[e].0@.len() == p@.len() + 1 && is_prefix_of(
                        p@,
                        self.entries@[e].0@,
                    ) ==> exists|i: int|
                        0 <= i < out@.len() && (#[trigger] out@[i].name@)
                            == self.entries@[e].0@.last(),
                forall|i1: int, i2: int|
                    0 <= i1 < i2 < out@.len() ==> (#[trigger] out@[i1].name@)
                        != (#[trigger] out@[i2].name@),
            decreases self.entries@.len() - j,
        {
            proof {
                lemma_entries_map_props(self.entries@);
            }
            let ep_len = self.entries[j].0.len();
            let ghost k = self.entries@[j as int].0@;
            if p.len() < ep_len && ep_len - p.len() == 1 && p.is_ancestor_of(&self.entries[j].0) {
                let name = self.entries[j].0.basename().clone();
                let is_d = match &self.entries[j].1 {
                    FsEntry::Dir => true,
                    FsEntry::File(_) => false,
                };
                proof {
                    assert(k =~= p@.push(name@));
                    assert(self@[k] == self.entries@[j as int].1@);
                }
                let ghost out_pre = out@;
                out.push(DirEntry { name, is_dir: is_d });
                proof {
                    assert(out@[out@.len() - 1].name@ == k.last());
                    assert forall|e: int|
                        0 <= e < j + 1 && self.entries@[e].0@.len() == p@.len() + 1
                            && is_prefix_of(p@, #[trigger] self.entries@[e].0@) implies exists|
                        i: int,
                    |
                        0 <= i < out@.len() && (#[trigger] out@[i].name@)
                            == self.entries@[e].0@.last() by {
                        if e < j {
                            let i = choose|i: int|
                                0 <= i < out_pre.len() && (#[trigger] out_pre[i].name@)
                                    == self.entries@[e].0@.last();
                            assert(out@[i].name@ == self.entries@[e].0@.last());
                        } else {
                            assert(out@[out@.len() - 1].name@ == self.entries@[e].0@.last());
                        }
                    }
                    assert forall|i1: int, i2: int|
                        0 <= i1 < i2 < out@.len() implies (#[trigger] out@[i1].name@)
                        != (#[trigger] out@[i2].name@) by {
                        if i2 == out@.len() - 1 {
                            let e = choose|e: int|
                                0 <= e < j && (#[trigger] self.entries@[e].0@) == p@.push(
                                    out_pre[i1].name@,
                                );
                            if out@[i1].name@ == out@[i2].name@ {
                                assert(self.entries@[e].0@ == self.entries@[j as int].0@);
                            }
                        }
                    }
                }
            } else {
                proof {
                    if k.len() == p@.len() + 1 && is_prefix_of(p@, k) {
                        assert(is_strict_prefix_of(p@, k));
                        assert(false);
                    }
                }
            }
            j += 1;
        }
        proof {
            assert forall|k: Seq<Seq<char>>|
                self@.contains_key(k) && k.len() == p@.len() + 1 && is_prefix_of(
                p@,
                k,
            ) implies exists|i: int| 0 <= i < out@.len() && (#[trigger] out@[i].name@)
                == k.last() by {
                let e = choose|e: int|
                    0 <= e < self.entries@.len() && (#[trigger] self.entries@[e].0@) == k;
            }
        }
        out
    }
}

/// The filesystem after creating only the first `upto` components of `p` as
/// directories: the intermediate states of recursive directory creation.
spec fn spec_mkdir_partial(m: FsView, p: Seq<Seq<char>>, upto: int) -> FsView {
    Map::new(
        |q: Seq<Seq<char>>| m.contains_key(q) || (is_prefix_of(q, p) && 1 <= q.len() <= upto),
        |q: Seq<Seq<char>>|
            if m.contains_key(q) {
                m[q]
            } else {
                EntryV::Dir
            },
    )
}

/// The invariant's three conjuncts, stated of a raw entry listing.
spec fn listing_inv(s: Seq<(ConfigPath, FsEntry)>) -> bool {
    &&& unique_paths(s)
    &&& forall|i: int| 0 <= i < s.len() ==> (#[trigger] s[i].0@).len() >= 1
    &&& forall|i: int, k: int|
        0 <= i < s.len() && 1 <= k < s[i].0@.len() ==> fs_is_dir(
            entries_map(s),
            #[trigger] s[i].0@.subrange(0, k),
        )
}

/// Replacing the non-directory entry at index `i` by an entry with the same
/// path that is also not a directory keeps the listing invariant.
proof fn lemma_replace_keeps_inv(s: Seq<(ConfigPath, FsEntry)>, i: int, v: (ConfigPath, FsEntry))
    requires
        listing_inv(s),
        0 <= i < s.len(),
        v.0@ == s[i].0@,
        !(s[i].1@ is Dir),
        !(v.1@ is Dir),
    ensures
        listing_inv(s.remove(i).push(v)),
{
    lemma_entries_map_props(s);
    lemma_entries_map_remove(s, i);
    let s1 = s.remove(i);
    let s2 = s1.push(v);
    lemma_entries_map_push(s1, v);
    let pv = s[i].0@;
    let m2 = entries_map(s2);
    assert(m2 == entries_map(s).remove(pv).insert(pv, v.1@));
    assert forall|q: Seq<Seq<char>>| fs_is_dir(entries_map(s), q) implies #[trigger] fs_is_dir(
        m2,
        q,
    ) by {
        if q.len() > 0 {
            assert(entries_map(s)[pv] == s[i].1@);
            assert(q != pv);
        }
    }
    assert(unique_paths(s2)) by {
        assert forall|a: int, b: int| 0 <= a < b < s2.len() implies (#[trigger] s2[a].0@)
            != (#[trigger] s2[b].0@) by {
            if b == s2.len() - 1 {
                if a < i {
                    assert(s2[a] == s[a]);
                } else {
                    assert(s2[a] == s[a + 1]);
                }
            }
        }
    }
    assert forall|j: int, k: int|
        0 <= j < s2.len() && 1 <= k < s2[j].0@.len() implies fs_is_dir(
        m2,
        #[trigger] s2[j].0@.subrange(0, k),
    ) by {
        let orig: int = if j == s2.len() - 1 {
            i
        } else if j < i {
            j
        } else {
            j + 1
        };
        assert(s2[j].0@ == s[orig].0@);
        assert(fs_is_dir(entries_map(s), s[orig].0@.subrange(0, k)));
    }
}

/// Appending an entry whose path is fresh, non-empty, not a directory target
/// of anyone's chain, and whose parent is a directory keeps the invariant.
proof fn lemma_append_keeps_inv(s: Seq<(ConfigPath, FsEntry)>, v: (ConfigPath, FsEntry))
    requires
        listing_inv(s),
        v.0@.len() >= 1,
        !entries_map(s).contains_key(v.0@),
        fs_is_dir(entries_map(s), parent_of(v.0@)),
    ensures
        listing_inv(s.push(v)),
{
    lemma_entries_map_props(s);
    lemma_entries_map_push(s, v);
    let s2 = s.push(v);
    let m = entries_map(s);
    let m2 = entries_map(s2);
    let pv = v.0@;
    assert forall|q: Seq<Seq<char>>| fs_is_dir(m, q) implies #[trigger] fs_is_dir(m2, q) by {
        if q.len() > 0 {
            assert(q != pv);
        }
    }
    assert(unique_paths(s2)) by {
        assert forall|a: int, b: int| 0 <= a < b < s2.len() implies (#[trigger] s2[a].0@)
            != (#[trigger] s2[b].0@) by {
            if b == s2.len() - 1 {
                assert(s2[a] == s[a]);
                assert(m.contains_key(s[a].0@));
            }
        }
    }
    assert forall|j: int, k: int|
        0 <= j < s2.len() && 1 <= k < s2[j].0@.len() implies fs_is_dir(
        m2,
        #[trigger] s2[j].0@.subrange(0, k),
    ) by {
        if j < s.len() {
            assert(s2[j] == s[j]);
            assert(fs_is_dir(m, s[j].0@.subrange(0, k)));
        } else {
            // chain of the fresh path: its parent is a directory, and the
            // parent's own chain is given by the entry that holds the parent
            if k == pv.len() - 1 {
                assert(pv.subrange(0, k) =~= parent_of(pv));
                assert(fs_is_dir(m, parent_of(pv)));
            } else {
                let par = parent_of(pv);
                assert(par.len() == pv.len() - 1 >= 1);
                assert(m.contains_key(par));
                let e = choose|e: int| 0 <= e < s.len() && (#[trigger] s[e].0@) == par;
                assert(fs_is_dir(m, s[e].0@.subrange(0, k)));
                assert(s[e].0@.subrange(0, k) =~= pv.subrange(0, k));
            }
        }
    }
}

} // verus!
