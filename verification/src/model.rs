//! The mathematical model of configuration trees.
//!
//! Every executable tree type has a ghost counterpart built from sequences
//! (`FileV`, `DirV`, `ConfigV`); the contracts of registration, `read` and
//! `write` are stated over these models and over the filesystem view
//! [`FsView`]. The module also defines the reconciliation semantics: what a
//! leaf read yields, which nodes a directory read descends into, what a
//! discovered entry looks like, the exact filesystem produced by a
//! directory write, and the frame a traversal is allowed to touch.

use vstd::prelude::*;

use crate::config::Config;
use crate::config_directory::{ConfigDirOpts, ConfigDirectory};
use crate::config_file::{ConfigFile, ConfigFileOpts};
use crate::errors::ConfigError;
use crate::format::{Format, opt_view};
use crate::fs::{EntryV, FsView, fs_is_dir, spec_can_mkdir, spec_can_write, spec_mkdir,
    spec_write_err};
use crate::path::{is_prefix_of, is_strict_prefix_of, parent_of};

verus! {

broadcast use vstd::std_specs::vec::group_vec_axioms;

/// The model of a leaf node.
pub struct FileV<F: Format> {
    pub path: Seq<Seq<char>>,
    pub content: Option<<F::Content as View>::V>,
    pub defaulted: bool,
    pub defaults: Option<<F::Defaults as View>::V>,
    pub options: ConfigFileOpts,
}

/// The model of a directory node.
pub struct DirV<F: Format> {
    pub path: Seq<Seq<char>>,
    pub entries: Seq<(Seq<char>, ConfigV<F>)>,
    pub defaulted: bool,
    pub options: ConfigDirOpts,
}

/// The model of a tree node.
pub enum ConfigV<F: Format> {
    File(FileV<F>),
    Directory(DirV<F>),
}

/// The model of a leaf, from its executable form.
pub open spec fn file_view<F: Format>(f: ConfigFile<F>) -> FileV<F> {
    FileV {
        path: f.path@,
        content: opt_view(f.content),
        defaulted: f.defaulted,
        defaults: opt_view(f.defaults),
        options: f.options,
    }
}

/// The model of a node, from its executable form.
pub open spec fn config_view<F: Format>(c: Config<F>) -> ConfigV<F>
    decreases c,
{
    match c {
        Config::File(f) => ConfigV::File(file_view(f)),
        Config::Directory(d) => ConfigV::Directory(dir_view(d)),
    }
}

/// The model of a directory, from its executable form.
pub open spec fn dir_view<F: Format>(d: ConfigDirectory<F>) -> DirV<F>
    decreases d,
{
    DirV {
        path: d.path@,
        entries: entries_view(d.configs@),
        defaulted: d.defaulted,
        options: d.options,
    }
}

/// The models of a directory's children, from their executable forms.
pub open spec fn entries_view<F: Format>(s: Seq<(String, Config<F>)>) -> Seq<
    (Seq<char>, ConfigV<F>),
>
    decreases s,
{
    if s.len() == 0 {
        Seq::empty()
    } else {
        entries_view(s.drop_last()).push((s.last().0@, config_view(s.last().1)))
    }
}

/// The path at which a node lives.
pub open spec fn config_path_of<F: Format>(c: ConfigV<F>) -> Seq<Seq<char>> {
    match c {
        ConfigV::File(f) => f.path,
        ConfigV::Directory(d) => d.path,
    }
}

/// The loaded content of a node, for leaves.
pub open spec fn config_content<F: Format>(c: ConfigV<F>) -> Option<<F::Content as View>::V> {
    match c {
        ConfigV::File(f) => f.content,
        ConfigV::Directory(_) => None,
    }
}

/// The defaulted flag of a node.
pub open spec fn config_defaulted<F: Format>(c: ConfigV<F>) -> bool {
    match c {
        ConfigV::File(f) => f.defaulted,
        ConfigV::Directory(d) => d.defaulted,
    }
}

/// True when some child is registered under `key`.
pub open spec fn has_key<F: Format>(entries: Seq<(Seq<char>, ConfigV<F>)>, key: Seq<char>) -> bool {
    exists|i: int| 0 <= i < entries.len() && (#[trigger] entries[i]).0 == key
}

/// A leaf is well-formed when its path is non-empty.
pub open spec fn file_wf<F: Format>(f: FileV<F>) -> bool {
    f.path.len() >= 1
}

/// A node is well-formed when its variant is.
pub open spec fn config_wf<F: Format>(c: ConfigV<F>) -> bool
    decreases c,
{
    match c {
        ConfigV::File(f) => file_wf(f),
        ConfigV::Directory(d) => dir_wf(d),
    }
}

/// A directory is well-formed when its keys are distinct, every child lives
/// at the directory's path extended by its key, and every child is itself
/// well-formed.
pub open spec fn dir_wf<F: Format>(d: DirV<F>) -> bool
    decreases d,
{
    &&& forall|i: int, j: int|
        0 <= i < j < d.entries.len() ==> (#[trigger] d.entries[i]).0 != (#[trigger] d.entries[j]).0
    &&& forall|i: int|
        0 <= i < d.entries.len() ==> config_path_of((#[trigger] d.entries[i]).1) == d.path.push(
            d.entries[i].0,
        )
    &&& forall|i: int| 0 <= i < d.entries.len() ==> config_wf((#[trigger] d.entries[i]).1)
}

// ---------------------------------------------------------------------------
// Leaf reads
// ---------------------------------------------------------------------------
/// The bytes a leaf read sees at `p`: the file's bytes, empty bytes when
/// nothing is there, and `None` when `p` is a directory or the root.
pub open spec fn file_bytes_read(m: FsView, p: Seq<Seq<char>>) -> Option<Seq<u8>> {
    if m.contains_key(p) {
        match m[p] {
            EntryV::File(b) => Some(b),
            EntryV::Dir => None,
        }
    } else if p.len() == 0 {
        None
    } else {
        Some(Seq::empty())
    }
}

/// The content outcome of reading leaf `f` against filesystem `m`: the
/// bytes at its path decoded under its defaults. `None` on a byte-level or
/// decode-level failure.
pub open spec fn file_read_content<F: Format>(f: FileV<F>, m: FsView) -> Option<
    (<F::Content as View>::V, bool),
> {
    match file_bytes_read(m, f.path) {
        Some(bytes) => F::spec_deserialize(bytes, f.defaults),
        None => None,
    }
}

/// Relates a leaf before a read to the leaf a successful read returns:
/// content and the defaulted flag are set from the decoded bytes, and
/// nothing else changes.
pub open spec fn file_read_post<F: Format>(f: FileV<F>, g: FileV<F>, m: FsView) -> bool {
    &&& file_read_content(f, m) matches Some(p)
    &&& g == (FileV { content: Some(p.0), defaulted: p.1, ..f })
}

/// When a leaf read succeeds: the bytes are readable and decode, and if a
/// defaulted result must be written back, that write can succeed.
pub open spec fn file_read_ok<F: Format>(f: FileV<F>, m: FsView) -> bool {
    &&& file_read_content(f, m) matches Some(p)
    &&& (p.1 && f.options.write_if_defaulted ==> spec_can_write(m, f.path))
}

/// The error a failed leaf read reports.
pub open spec fn file_read_err<F: Format>(f: FileV<F>, m: FsView) -> ConfigError {
    match file_bytes_read(m, f.path) {
        None => ConfigError::NotAFile,
        Some(bytes) => match F::spec_deserialize(bytes, f.defaults) {
            None => ConfigError::Decode,
            Some(_) => spec_write_err(m, f.path),
        },
    }
}

// ---------------------------------------------------------------------------
// Writes
// ---------------------------------------------------------------------------
/// The outcome of ensuring the directory at `p`: `mkdir -p` semantics.
pub open spec fn spec_ensure(m: FsView, p: Seq<Seq<char>>) -> Result<FsView, ConfigError> {
    if spec_can_mkdir(m, p) {
        Ok(spec_mkdir(m, p))
    } else {
        Err(ConfigError::NotADirectory)
    }
}

/// The outcome of writing leaf `f`: its serialized content lands at its
/// path, or the write fails and nothing changes.
pub open spec fn spec_file_write<F: Format>(f: FileV<F>, m: FsView) -> Result<FsView, ConfigError> {
    if spec_can_write(m, f.path) {
        Ok(m.insert(f.path, EntryV::File(F::spec_serialize(f.content))))
    } else {
        Err(spec_write_err(m, f.path))
    }
}

/// The outcome of writing directory `d`: first its own directory is
/// ensured, then each child in order. A file child is written; a directory
/// child is written recursively when `recursive` is set, otherwise only its
/// directory is ensured. The first failure aborts the walk.
pub open spec fn spec_dir_write<F: Format>(d: DirV<F>, m: FsView) -> Result<FsView, ConfigError>
    decreases d, d.entries.len() + 1,
{
    match spec_ensure(m, d.path) {
        Ok(m1) => spec_write_entries(d, 0, m1),
        Err(e) => Err(e),
    }
}

/// The outcome of writing the children of `d` from index `i` on.
pub open spec fn spec_write_entries<F: Format>(d: DirV<F>, i: int, m: FsView) -> Result<
    FsView,
    ConfigError,
>
    decreases d, d.entries.len() - i,
{
    if i < 0 || i >= d.entries.len() {
        Ok(m)
    } else {
        let step = match d.entries[i].1 {
            ConfigV::File(f) => spec_file_write::<F>(f, m),
            ConfigV::Directory(dd) => if d.options.recursive {
                spec_dir_write(dd, m)
            } else {
                spec_ensure(m, dd.path)
            },
        };
        match step {
            Ok(m2) => spec_write_entries(d, i + 1, m2),
            Err(e) => Err(e),
        }
    }
}

// ---------------------------------------------------------------------------
// Directory reads
// ---------------------------------------------------------------------------
/// Whether a directory read (or write) with policy `recursive` descends
/// into the given child: files always, subdirectories only recursively.
pub open spec fn entry_descended<F: Format>(recursive: bool, c: ConfigV<F>) -> bool {
    c is File || recursive
}

/// The model of a leaf freshly synthesized for a discovered file.
pub open spec fn fresh_file_v<F: Format>(p: Seq<Seq<char>>) -> FileV<F> {
    FileV {
        path: p,
        content: None,
        defaulted: false,
        defaults: None,
        options: ConfigFileOpts { write_if_defaulted: false },
    }
}

/// The model of a directory freshly synthesized for a discovered
/// subdirectory: empty, with all policies off.
pub open spec fn fresh_dir_v<F: Format>(p: Seq<Seq<char>>) -> DirV<F> {
    DirV {
        path: p,
        entries: Seq::empty(),
        defaulted: false,
        options: ConfigDirOpts { write_if_defaulted: false, read_new: false, recursive: false },
    }
}

/// What a discovery-appended entry of directory `d` looks like after the
/// read: it mirrors an on-disk entry that was not registered; a discovered
/// file has been read (from a fresh leaf), a discovered subdirectory is a
/// fresh empty directory (reading it changes nothing).
pub open spec fn discovered_entry_post<F: Format>(
    d: DirV<F>,
    e: (Seq<char>, ConfigV<F>),
    m: FsView,
) -> bool {
    let p = d.path.push(e.0);
    &&& !has_key(d.entries, e.0)
    &&& m.contains_key(p)
    &&& match m[p] {
        EntryV::File(_) => e.1 matches ConfigV::File(g) && file_read_post(
            fresh_file_v::<F>(p),
            g,
            m,
        ),
        EntryV::Dir => e.1 == ConfigV::Directory(fresh_dir_v::<F>(p)),
    }
}

/// What a discovery-appended entry of directory `d` looks like right after
/// discovery, before the traversal has read it: a fresh unread node of the
/// on-disk entry's kind.
pub open spec fn discovered_fresh_entry<F: Format>(
    d: DirV<F>,
    e: (Seq<char>, ConfigV<F>),
    m: FsView,
) -> bool {
    let p = d.path.push(e.0);
    &&& !has_key(d.entries, e.0)
    &&& m.contains_key(p)
    &&& match m[p] {
        EntryV::File(_) => e.1 == ConfigV::File(fresh_file_v::<F>(p)),
        EntryV::Dir => e.1 == ConfigV::Directory(fresh_dir_v::<F>(p)),
    }
}

/// Under the sufficient read condition of a directory, a freshly discovered
/// file can itself be read.
pub proof fn lemma_discovered_file_ok<F: Format>(d: DirV<F>, name: Seq<char>, m: FsView)
    requires
        dir_read_ok(d, m),
        d.options.read_new && fs_is_dir(m, d.path),
        m.contains_key(d.path.push(name)),
        m[d.path.push(name)] is File,
        !has_key(d.entries, name),
    ensures
        file_read_ok(fresh_file_v::<F>(d.path.push(name)), m),
{
    let p = d.path.push(name);
    let b = m[p]->File_0;
    assert(file_bytes_read(m, p) == Some(b));
    if b.len() == 0 {
        assert(b =~= Seq::<u8>::empty());
        F::lemma_deserialize_empty(None);
        assert(F::spec_deserialize(b, None) is Some);
    } else {
        assert(match m[d.path.push(name)] {
            EntryV::File(bb) => bb.len() == 0 || F::spec_deserialize(bb, None) is Some,
            EntryV::Dir => true,
        });
    }
    assert(fresh_file_v::<F>(p).defaults == None::<<F::Defaults as View>::V>);
}

/// Relates a directory before a read to the directory a successful read
/// returns, against the filesystem `m` the read started from. Registered
/// children keep their keys and order; descended ones are read, the rest
/// are untouched. With discovery on, one entry per unregistered on-disk
/// child is appended. The directory's `defaulted` flag is exactly the OR of
/// the flags of the children descended into during this read.
pub open spec fn dir_read_post<F: Format>(d: DirV<F>, r: DirV<F>, m: FsView) -> bool
    decreases d,
{
    let disc = d.options.read_new && fs_is_dir(m, d.path);
    &&& r.path == d.path
    &&& r.options == d.options
    &&& r.entries.len() >= d.entries.len()
    &&& (!disc ==> r.entries.len() == d.entries.len())
    &&& forall|i: int|
        0 <= i < d.entries.len() ==> (#[trigger] r.entries[i]).0 == (#[trigger] d.entries[i]).0
    &&& forall|i: int|
        0 <= i < d.entries.len() ==> if entry_descended(
            d.options.recursive,
            (#[trigger] d.entries[i]).1,
        ) {
            config_read_post(d.entries[i].1, (#[trigger] r.entries[i]).1, m)
        } else {
            r.entries[i].1 == d.entries[i].1
        }
    &&& forall|i: int|
        d.entries.len() <= i < r.entries.len() ==> disc && discovered_entry_post(
            d,
            #[trigger] r.entries[i],
            m,
        )
    &&& (disc ==> forall|name: Seq<char>|
        m.contains_key(#[trigger] d.path.push(name)) && !has_key(d.entries, name) ==> exists|i: int|
            d.entries.len() <= i < r.entries.len() && (#[trigger] r.entries[i]).0 == name)
    &&& forall|i: int, j: int|
        d.entries.len() <= i < j < r.entries.len() ==> (#[trigger] r.entries[i]).0
            != (#[trigger] r.entries[j]).0
    &&& r.defaulted == exists|i: int|
        0 <= i < r.entries.len() && entry_descended(
            d.options.recursive,
            (#[trigger] r.entries[i]).1,
        ) && config_defaulted(r.entries[i].1)
}

/// Relates a node before a read to the node a successful read returns.
pub open spec fn config_read_post<F: Format>(c: ConfigV<F>, r: ConfigV<F>, m: FsView) -> bool
    decreases c,
{
    match c {
        ConfigV::File(f) => r matches ConfigV::File(g) && file_read_post(f, g, m),
        ConfigV::Directory(d) => r matches ConfigV::Directory(e) && dir_read_post(d, e, m),
    }
}

/// A sufficient condition for a directory read to succeed: every descended
/// child reads and decodes, every discovered file decodes, and no node of
/// the walk uses directory-level write-back.
pub open spec fn dir_read_ok<F: Format>(d: DirV<F>, m: FsView) -> bool
    decreases d,
{
    let disc = d.options.read_new && fs_is_dir(m, d.path);
    &&& !d.options.write_if_defaulted
    &&& forall|i: int|
        0 <= i < d.entries.len() && entry_descended(d.options.recursive, (#[trigger] d.entries[i]).1)
            ==> config_read_ok(d.entries[i].1, m)
    &&& (disc ==> forall|name: Seq<char>|
        m.contains_key(#[trigger] d.path.push(name)) && !has_key(d.entries, name) ==> match m[d.path.push(
            name,
        )] {
            EntryV::File(b) => b.len() == 0 || F::spec_deserialize(b, None) is Some,
            EntryV::Dir => true,
        })
}

/// A sufficient condition for a node read to succeed.
pub open spec fn config_read_ok<F: Format>(c: ConfigV<F>, m: FsView) -> bool
    decreases c,
{
    match c {
        ConfigV::File(f) => file_read_ok(f, m),
        ConfigV::Directory(d) => dir_read_ok(d, m),
    }
}

/// True when no node of the tree uses write-back after defaulting; a read
/// of such a tree leaves the filesystem untouched.
pub open spec fn no_write_back<F: Format>(c: ConfigV<F>) -> bool
    decreases c,
{
    match c {
        ConfigV::File(f) => !f.options.write_if_defaulted,
        ConfigV::Directory(d) => !d.options.write_if_defaulted && forall|i: int|
            0 <= i < d.entries.len() ==> no_write_back((#[trigger] d.entries[i]).1),
    }
}

// ---------------------------------------------------------------------------
// Frames
// ---------------------------------------------------------------------------
///`q` is present with the same entry in both filesystems, or absent from
/// both.
pub open spec fn same_entry(m1: FsView, m2: FsView, q: Seq<Seq<char>>) -> bool {
    &&& m1.contains_key(q) <==> m2.contains_key(q)
    &&& m1.contains_key(q) ==> m1[q] == m2[q]
}

/// The two filesystems agree at `p` and everywhere below it.
pub open spec fn agree_on_cone(m1: FsView, m2: FsView, p: Seq<Seq<char>>) -> bool {
    forall|q: Seq<Seq<char>>| #[trigger] is_prefix_of(p, q) ==> same_entry(m1, m2, q)
}

/// The frame of a traversal rooted at `p`: outside of `p`'s subtree and
/// `p`'s ancestors nothing changes; ancestors change at most from absent to
/// directory; directories are never demoted.
pub open spec fn fs_frame(m1: FsView, m2: FsView, p: Seq<Seq<char>>) -> bool {
    &&& forall|q: Seq<Seq<char>>|
        !(#[trigger] is_prefix_of(p, q)) && !is_strict_prefix_of(q, p) ==> same_entry(m1, m2, q)
    &&& forall|q: Seq<Seq<char>>| #[trigger]
        is_strict_prefix_of(q, p) ==> (m1.contains_key(q) ==> m2.contains_key(q) && m2[q] == m1[q])
            && (m2.contains_key(q) ==> m1.contains_key(q) || m2[q] is Dir)
    &&& crate::fs::dirs_preserved(m1, m2)
}

/// An unchanged filesystem satisfies any frame.
pub proof fn lemma_frame_refl(m: FsView, p: Seq<Seq<char>>)
    ensures
        fs_frame(m, m, p),
{
    assert forall|q: Seq<Seq<char>>| #[trigger] fs_is_dir(m, q) implies fs_is_dir(m, q) by {}
}

/// Replacing the entry at `p` stays within the frame rooted at `p`.
pub proof fn lemma_frame_insert(m: FsView, p: Seq<Seq<char>>, v: EntryV)
    requires
        crate::fs::dirs_preserved(m, m.insert(p, v)),
    ensures
        fs_frame(m, m.insert(p, v), p),
{
    let m2 = m.insert(p, v);
    assert forall|q: Seq<Seq<char>>|
        !(#[trigger] is_prefix_of(p, q)) && !is_strict_prefix_of(q, p) implies same_entry(
        m,
        m2,
        q,
    ) by {
        assert(p.subrange(0, p.len() as int) =~= p);
        assert(q != p);
    }
    assert forall|q: Seq<Seq<char>>| #[trigger] is_strict_prefix_of(q, p) implies (m.contains_key(
        q,
    ) ==> m2.contains_key(q) && m2[q] == m[q]) && (m2.contains_key(q) ==> m.contains_key(q)
        || m2[q] is Dir) by {
        assert(q != p);
    }
}

/// Creating the directory chain for `p` stays within the frame rooted at
/// `p`, and never demotes a directory.
pub proof fn lemma_frame_mkdir(m: FsView, p: Seq<Seq<char>>)
    ensures
        crate::fs::dirs_preserved(m, spec_mkdir(m, p)),
        fs_frame(m, spec_mkdir(m, p), p),
{
    let m2 = spec_mkdir(m, p);
    assert forall|q: Seq<Seq<char>>| #[trigger] fs_is_dir(m, q) implies fs_is_dir(m2, q) by {}
    assert forall|q: Seq<Seq<char>>|
        !(#[trigger] is_prefix_of(p, q)) && !is_strict_prefix_of(q, p) implies same_entry(
        m,
        m2,
        q,
    ) by {
        assert(p.subrange(0, p.len() as int) =~= p);
        if is_prefix_of(q, p) {
            assert(q.len() < p.len() || q =~= p);
        }
    }
    assert forall|q: Seq<Seq<char>>| #[trigger] is_strict_prefix_of(q, p) implies (m.contains_key(
        q,
    ) ==> m2.contains_key(q) && m2[q] == m[q]) && (m2.contains_key(q) ==> m.contains_key(q)
        || m2[q] is Dir) by {}
}

/// Frames rooted at the same path compose.
pub proof fn lemma_frame_trans(m1: FsView, m2: FsView, m3: FsView, p: Seq<Seq<char>>)
    requires
        fs_frame(m1, m2, p),
        fs_frame(m2, m3, p),
    ensures
        fs_frame(m1, m3, p),
{
    assert forall|q: Seq<Seq<char>>|
        !(#[trigger] is_prefix_of(p, q)) && !is_strict_prefix_of(q, p) implies same_entry(
        m1,
        m3,
        q,
    ) by {
        assert(same_entry(m1, m2, q));
        assert(same_entry(m2, m3, q));
    }
    assert forall|q: Seq<Seq<char>>| #[trigger] fs_is_dir(m1, q) implies fs_is_dir(m3, q) by {
        assert(fs_is_dir(m2, q));
    }
}

/// A frame rooted below `p` is also a frame rooted at `p`.
pub proof fn lemma_frame_widen(m1: FsView, m2: FsView, p: Seq<Seq<char>>, q: Seq<Seq<char>>)
    requires
        fs_frame(m1, m2, q),
        is_prefix_of(p, q),
    ensures
        fs_frame(m1, m2, p),
{
    assert forall|x: Seq<Seq<char>>|
        !(#[trigger] is_prefix_of(p, x)) && !is_strict_prefix_of(x, p) implies same_entry(
        m1,
        m2,
        x,
    ) by {
        if is_prefix_of(q, x) {
            assert(x.subrange(0, p.len() as int) =~= p);
        }
        if is_strict_prefix_of(x, q) {
            if x.len() < p.len() {
                assert(p.subrange(0, x.len() as int) =~= x);
                assert(false);
            } else {
                assert(x.subrange(0, p.len() as int) =~= p);
                assert(false);
            }
        }
        assert(same_entry(m1, m2, x));
    }
    assert forall|x: Seq<Seq<char>>| #[trigger] is_strict_prefix_of(x, p) implies (m1.contains_key(
        x,
    ) ==> m2.contains_key(x) && m2[x] == m1[x]) && (m2.contains_key(x) ==> m1.contains_key(x)
        || m2[x] is Dir) by {
        assert(is_strict_prefix_of(x, q)) by {
            assert(q.subrange(0, x.len() as int) =~= p.subrange(0, x.len() as int));
        }
    }
}

/// A step framed inside one child's subtree leaves every other child's
/// subtree untouched: agreement with the starting filesystem is preserved.
pub proof fn lemma_sibling_frame(
    m: FsView,
    ma: FsView,
    mb: FsView,
    p: Seq<Seq<char>>,
    ki: Seq<char>,
    kj: Seq<char>,
)
    requires
        fs_frame(ma, mb, p.push(ki)),
        ki != kj,
        agree_on_cone(m, ma, p.push(kj)),
    ensures
        agree_on_cone(m, mb, p.push(kj)),
{
    let pi = p.push(ki);
    let pj = p.push(kj);
    assert forall|q: Seq<Seq<char>>| #[trigger] is_prefix_of(pj, q) implies same_entry(
        m,
        mb,
        q,
    ) by {
        assert(same_entry(m, ma, q));
        assert(q.len() >= pj.len());
        assert(!is_prefix_of(pi, q)) by {
            if is_prefix_of(pi, q) {
                assert(q.subrange(0, pi.len() as int)[p.len() as int] == ki);
                assert(q.subrange(0, pj.len() as int)[p.len() as int] == kj);
            }
        }
        assert(!is_strict_prefix_of(q, pi));
        assert(same_entry(ma, mb, q));
    }
}

/// In a well-formed directory, a child path matches `d.path.push(name)`
/// exactly when a child is registered under `name`.
pub proof fn lemma_has_config_key<F: Format>(d: DirV<F>, name: Seq<char>)
    requires
        dir_wf(d),
    ensures
        (exists|i: int|
            0 <= i < d.entries.len() && config_path_of((#[trigger] d.entries[i]).1) == d.path.push(
                name,
            )) <==> has_key(d.entries, name),
{
    if exists|i: int|
        0 <= i < d.entries.len() && config_path_of((#[trigger] d.entries[i]).1) == d.path.push(
            name,
        ) {
        let i = choose|i: int|
            0 <= i < d.entries.len() && config_path_of((#[trigger] d.entries[i]).1) == d.path.push(
                name,
            );
        assert(d.path.push(d.entries[i].0).last() == d.path.push(name).last());
        assert(d.entries[i].0 == name);
    }
    if has_key(d.entries, name) {
        let i = choose|i: int| 0 <= i < d.entries.len() && (#[trigger] d.entries[i]).0 == name;
        assert(config_path_of(d.entries[i].1) == d.path.push(name));
    }
}

/// Agreement on a subtree is reflexive.
pub proof fn lemma_agree_refl(m: FsView, p: Seq<Seq<char>>)
    ensures
        agree_on_cone(m, m, p),
{
}

/// Agreement on a subtree is symmetric.
pub proof fn lemma_agree_sym(m1: FsView, m2: FsView, p: Seq<Seq<char>>)
    requires
        agree_on_cone(m1, m2, p),
    ensures
        agree_on_cone(m2, m1, p),
{
    assert forall|q: Seq<Seq<char>>| #[trigger] is_prefix_of(p, q) implies same_entry(
        m2,
        m1,
        q,
    ) by {
        assert(same_entry(m1, m2, q));
    }
}

/// Agreement on a subtree restricts to agreement on any subtree below it.
pub proof fn lemma_agree_narrow(m1: FsView, m2: FsView, p: Seq<Seq<char>>, q: Seq<Seq<char>>)
    requires
        agree_on_cone(m1, m2, p),
        is_prefix_of(p, q),
    ensures
        agree_on_cone(m1, m2, q),
{
    assert forall|x: Seq<Seq<char>>| #[trigger] is_prefix_of(q, x) implies same_entry(
        m1,
        m2,
        x,
    ) by {
        assert(is_prefix_of(p, x)) by {
            assert(x.subrange(0, p.len() as int) =~= q.subrange(0, p.len() as int));
        }
        assert(same_entry(m1, m2, x));
    }
}

/// The outcome of a read depends only on the filesystem at and below the
/// node's path: agreement there carries the read relation across.
pub proof fn lemma_read_post_frame<F: Format>(c: ConfigV<F>, r: ConfigV<F>, m1: FsView, m2: FsView)
    requires
        config_wf(c),
        config_read_post(c, r, m1),
        agree_on_cone(m1, m2, config_path_of(c)),
    ensures
        config_read_post(c, r, m2),
    decreases c,
{
    let p = config_path_of(c);
    assert(is_prefix_of(p, p)) by {
        assert(p.subrange(0, p.len() as int) =~= p);
    }
    assert(same_entry(m1, m2, p));
    match c {
        ConfigV::File(f) => {},
        ConfigV::Directory(d) => {
            let e = r->Directory_0;
            assert forall|i: int|
                0 <= i < d.entries.len() && entry_descended(
                    d.options.recursive,
                    (#[trigger] d.entries[i]).1,
                ) implies config_read_post(d.entries[i].1, e.entries[i].1, m2) by {
                let cp = d.path.push(d.entries[i].0);
                assert(is_prefix_of(p, cp)) by {
                    assert(cp.subrange(0, p.len() as int) =~= p);
                }
                lemma_agree_narrow(m1, m2, p, cp);
                assert(config_path_of(d.entries[i].1) == cp);
                lemma_read_post_frame(d.entries[i].1, e.entries[i].1, m1, m2);
            }
            assert forall|i: int|
                d.entries.len() <= i < e.entries.len() implies discovered_entry_post(
                d,
                #[trigger] e.entries[i],
                m2,
            ) by {
                let name = e.entries[i].0;
                let cp = d.path.push(name);
                assert(is_prefix_of(p, cp)) by {
                    assert(cp.subrange(0, p.len() as int) =~= p);
                }
                assert(same_entry(m1, m2, cp));
                assert(discovered_entry_post(d, e.entries[i], m1));
            }
            assert(fs_is_dir(m1, d.path) == fs_is_dir(m2, d.path));
            if d.options.read_new && fs_is_dir(m2, d.path) {
                assert forall|name: Seq<char>|
                    m2.contains_key(#[trigger] d.path.push(name)) && !has_key(
                        d.entries,
                        name,
                    ) implies exists|i: int|
                    d.entries.len() <= i < e.entries.len() && (#[trigger] e.entries[i]).0
                        == name by {
                    let cp = d.path.push(name);
                    assert(is_prefix_of(p, cp)) by {
                        assert(cp.subrange(0, p.len() as int) =~= p);
                    }
                    assert(same_entry(m1, m2, cp));
                }
            }
        },
    }
}

/// Sufficient read conditions also depend only on the node's subtree, as
/// long as no directory is demoted in between.
pub proof fn lemma_read_ok_frame<F: Format>(c: ConfigV<F>, m1: FsView, m2: FsView)
    requires
        config_wf(c),
        config_read_ok(c, m1),
        agree_on_cone(m1, m2, config_path_of(c)),
        crate::fs::dirs_preserved(m1, m2),
    ensures
        config_read_ok(c, m2),
    decreases c,
{
    let p = config_path_of(c);
    assert(is_prefix_of(p, p)) by {
        assert(p.subrange(0, p.len() as int) =~= p);
    }
    assert(same_entry(m1, m2, p));
    match c {
        ConfigV::File(f) => {
            if file_read_content(f, m1) matches Some(pr) && pr.1 && f.options.write_if_defaulted {
                assert(fs_is_dir(m2, parent_of(f.path)));
            }
        },
        ConfigV::Directory(d) => {
            assert forall|i: int|
                0 <= i < d.entries.len() && entry_descended(
                    d.options.recursive,
                    (#[trigger] d.entries[i]).1,
                ) implies config_read_ok(d.entries[i].1, m2) by {
                let cp = d.path.push(d.entries[i].0);
                assert(is_prefix_of(p, cp)) by {
                    assert(cp.subrange(0, p.len() as int) =~= p);
                }
                lemma_agree_narrow(m1, m2, p, cp);
                assert(config_path_of(d.entries[i].1) == cp);
                lemma_read_ok_frame(d.entries[i].1, m1, m2);
            }
            assert(fs_is_dir(m1, d.path) == fs_is_dir(m2, d.path));
            let disc2 = d.options.read_new && fs_is_dir(m2, d.path);
            if disc2 {
                assert forall|name: Seq<char>|
                    m2.contains_key(#[trigger] d.path.push(name)) && !has_key(
                        d.entries,
                        name,
                    ) implies match m2[d.path.push(name)] {
                    EntryV::File(b) => b.len() == 0 || F::spec_deserialize(b, None) is Some,
                    EntryV::Dir => true,
                } by {
                    let cp = d.path.push(name);
                    assert(is_prefix_of(p, cp)) by {
                        assert(cp.subrange(0, p.len() as int) =~= p);
                    }
                    assert(same_entry(m1, m2, cp));
                }
            }
        },
    }
}

// ---------------------------------------------------------------------------
// Registration
// ---------------------------------------------------------------------------
/// Relates the children of a directory to their models, index by index.
pub proof fn lemma_entries_view_props<F: Format>(s: Seq<(String, Config<F>)>)
    ensures
        entries_view(s).len() == s.len(),
        forall|i: int|
            0 <= i < s.len() ==> (#[trigger] entries_view(s)[i]) == (s[i].0@, config_view(s[i].1)),
    decreases s.len(),
{
    if s.len() > 0 {
        lemma_entries_view_props(s.drop_last());
    }
}
/// The index of the child registered under `key`.
pub open spec fn key_index<F: Format>(entries: Seq<(Seq<char>, ConfigV<F>)>, key: Seq<char>) -> int {
    choose|i: int| 0 <= i < entries.len() && (#[trigger] entries[i]).0 == key
}

/// Registers `c` under `key`: replaces the child already registered under
/// that key, or appends a new one.
pub open spec fn entries_insert<F: Format>(
    entries: Seq<(Seq<char>, ConfigV<F>)>,
    key: Seq<char>,
    c: ConfigV<F>,
) -> Seq<(Seq<char>, ConfigV<F>)> {
    if has_key(entries, key) {
        entries.update(key_index(entries, key), (key, c))
    } else {
        entries.push((key, c))
    }
}

/// A directory with `c` registered under `key`.
pub open spec fn dir_insert<F: Format>(d: DirV<F>, key: Seq<char>, c: ConfigV<F>) -> DirV<F> {
    DirV { entries: entries_insert(d.entries, key, c), ..d }
}

/// The node re-rooted at `p`: its own path becomes `p`, and every
/// descendant's path follows its chain of keys below `p`.
pub open spec fn reparent_config<F: Format>(c: ConfigV<F>, p: Seq<Seq<char>>) -> ConfigV<F>
    decreases c,
{
    match c {
        ConfigV::File(f) => ConfigV::File(FileV { path: p, ..f }),
        ConfigV::Directory(d) => ConfigV::Directory(reparent_dir(d, p)),
    }
}

/// The directory re-rooted at `p`.
pub open spec fn reparent_dir<F: Format>(d: DirV<F>, p: Seq<Seq<char>>) -> DirV<F>
    decreases d,
{
    DirV { path: p, entries: reparent_entries(d.entries, p), ..d }
}

/// The children re-rooted below `p`, each at `p` extended by its key.
pub open spec fn reparent_entries<F: Format>(
    s: Seq<(Seq<char>, ConfigV<F>)>,
    p: Seq<Seq<char>>,
) -> Seq<(Seq<char>, ConfigV<F>)>
    decreases s,
{
    if s.len() == 0 {
        Seq::empty()
    } else {
        reparent_entries(s.drop_last(), p).push(
            (s.last().0, reparent_config(s.last().1, p.push(s.last().0))),
        )
    }
}

/// The names of the children of a directory at `path` whose own paths sit
/// directly under `path`.
pub open spec fn children_keys<F: Format>(
    path: Seq<Seq<char>>,
    entries: Seq<(Seq<char>, ConfigV<F>)>,
) -> Seq<Seq<char>>
    decreases entries.len(),
{
    if entries.len() == 0 {
        Seq::empty()
    } else {
        let rest = children_keys(path, entries.drop_last());
        let e = entries.last();
        if config_path_of(e.1).len() >= 1 && parent_of(config_path_of(e.1)) == path {
            rest.push(e.0)
        } else {
            rest
        }
    }
}

/// Relates re-rooted children to the originals, index by index.
pub proof fn lemma_reparent_entries_props<F: Format>(
    s: Seq<(Seq<char>, ConfigV<F>)>,
    p: Seq<Seq<char>>,
)
    ensures
        reparent_entries(s, p).len() == s.len(),
        forall|i: int|
            0 <= i < s.len() ==> (#[trigger] reparent_entries(s, p)[i]) == (
                s[i].0,
                reparent_config(s[i].1, p.push(s[i].0)),
            ),
    decreases s.len(),
{
    if s.len() > 0 {
        lemma_reparent_entries_props(s.drop_last(), p);
    }
}

/// Re-rooting a well-formed node at a non-empty path keeps it well-formed.
pub proof fn lemma_reparent_wf<F: Format>(c: ConfigV<F>, p: Seq<Seq<char>>)
    requires
        config_wf(c),
        p.len() >= 1,
    ensures
        config_wf(reparent_config(c, p)),
        config_path_of(reparent_config(c, p)) == p,
    decreases c,
{
    match c {
        ConfigV::File(_) => {},
        ConfigV::Directory(d) => {
            let d2 = reparent_dir(d, p);
            lemma_reparent_entries_props(d.entries, p);
            assert forall|i: int| 0 <= i < d2.entries.len() implies config_wf(
                (#[trigger] d2.entries[i]).1,
            ) && config_path_of(d2.entries[i].1) == d2.path.push(d2.entries[i].0) by {
                lemma_reparent_wf(d.entries[i].1, p.push(d.entries[i].0));
            }
        },
    }
}

/// Registering a well-formed child under its own key keeps the directory
/// well-formed.
pub proof fn lemma_dir_insert_wf<F: Format>(d: DirV<F>, key: Seq<char>, c: ConfigV<F>)
    requires
        dir_wf(d),
        config_wf(c),
        config_path_of(c) == d.path.push(key),
    ensures
        dir_wf(dir_insert(d, key, c)),
{
    let d2 = dir_insert(d, key, c);
    if has_key(d.entries, key) {
        let w = key_index(d.entries, key);
        assert(0 <= w < d.entries.len() && d.entries[w].0 == key);
        assert forall|i: int, j: int|
            0 <= i < j < d2.entries.len() implies (#[trigger] d2.entries[i]).0
            != (#[trigger] d2.entries[j]).0 by {
            assert(d.entries[i].0 != d.entries[j].0);
        }
    }
}

} // verus!
