//! The laws of tree reconciliation, stated and proved once and for all
//! formats: round-tripping, defaulting, write-back after defaulting,
//! non-recursive writes, and discovery.

use vstd::prelude::*;

use crate::format::Format;
use crate::fs::{EntryV, FsView, fs_is_dir, spec_can_write};
use crate::model::{ConfigV, DirV, FileV, config_content, dir_read_post, dir_wf,
    discovered_entry_post, file_bytes_read, file_read_content, file_read_post, fresh_file_v,
    has_key, same_entry, spec_dir_write, spec_ensure, spec_file_write, spec_write_entries};
use crate::path::is_prefix_of;

verus! {

/// Round trip: writing a leaf that holds content `c` (serializing to at
/// least one byte), then reading any leaf registered at the same path from
/// the resulting filesystem, yields content `c` again with no defaulting,
/// whatever defaults the reading leaf carries.
pub proof fn lemma_round_trip<F: Format>(
    f: FileV<F>,
    g: FileV<F>,
    m: FsView,
    c: <F::Content as View>::V,
)
    requires
        f.content == Some(c),
        F::spec_serialize(Some(c)).len() > 0,
        spec_can_write(m, f.path),
        g.path == f.path,
    ensures
        spec_file_write(f, m) matches Ok(m2) && file_read_content(g, m2) == Some((c, false)),
{
    let bytes = F::spec_serialize(Some(c));
    let m2 = spec_file_write::<F>(f, m)->Ok_0;
    assert(file_bytes_read(m2, g.path) == Some(bytes));
    F::lemma_round_trip(c, g.defaults);
}

/// Defaulting: reading a leaf with defaults `d` against a path where no
/// file exists yields the default content, with the defaulted flag set.
pub proof fn lemma_defaulting<F: Format>(f: FileV<F>, m: FsView, d: <F::Defaults as View>::V)
    requires
        f.defaults == Some(d),
        !m.contains_key(f.path),
        f.path.len() >= 1,
    ensures
        file_read_content(f, m) == Some((F::spec_default_content(Some(d)), true)),
{
    assert(file_bytes_read(m, f.path) == Some(Seq::<u8>::empty()));
    F::lemma_deserialize_empty(Some(d));
}

/// No defaulting when present: reading a leaf against a file holding
/// non-empty bytes that decode to `c` yields `c` with the defaulted flag
/// clear, whatever defaults the leaf carries.
pub proof fn lemma_no_defaulting_when_present<F: Format>(
    f: FileV<F>,
    m: FsView,
    b: Seq<u8>,
    c: <F::Content as View>::V,
)
    requires
        m.contains_key(f.path),
        m[f.path] == EntryV::File(b),
        b.len() > 0,
        F::spec_deserialize(b, None) matches Some(p) && p.0 == c,
    ensures
        file_read_content(f, m) == Some((c, false)),
{
    assert(file_bytes_read(m, f.path) == Some(b));
    F::lemma_deserialize_nonempty(b, None, f.defaults);
}

/// Write-back after defaulting: a leaf with defaults `d` and
/// `write_if_defaulted` set, read against a path with no pre-existing
/// file, comes back defaulted, and the filesystem its read leaves behind
/// holds a file at the leaf's path whose bytes decode back to the default
/// content.
pub proof fn lemma_write_if_defaulted<F: Format>(
    f: FileV<F>,
    g: FileV<F>,
    m: FsView,
    m2: FsView,
    d: <F::Defaults as View>::V,
)
    requires
        f.defaults == Some(d),
        f.options.write_if_defaulted,
        !m.contains_key(f.path),
        f.path.len() >= 1,
        file_read_post(f, g, m),
        m2 == m.insert(f.path, EntryV::File(F::spec_serialize(g.content))),
        F::spec_serialize(Some(F::spec_default_content(Some(d)))).len() > 0,
    ensures
        g.defaulted && g.options.write_if_defaulted,
        m2.contains_key(f.path) && m2[f.path] is File,
        F::spec_deserialize(m2[f.path]->File_0, None) == Some(
            (F::spec_default_content(Some(d)), false),
        ),
{
    lemma_defaulting::<F>(f, m, d);
    let dc = F::spec_default_content(Some(d));
    assert(g.content == Some(dc));
    F::lemma_round_trip(dc, None);
}

/// One step of a non-recursive directory write never touches anything more
/// than one level below the directory, and leaves every subdirectory child
/// from the step onwards existing as a directory.
proof fn lemma_write_entries_shallow<F: Format>(d: DirV<F>, j: int, m: FsView)
    requires
        0 <= j,
        dir_wf(d),
        !d.options.recursive,
        spec_write_entries(d, j, m) is Ok,
    ensures
        ({
            let m2 = spec_write_entries(d, j, m)->Ok_0;
            &&& forall|q: Seq<Seq<char>>|
                q.len() > d.path.len() + 1 ==> #[trigger] same_entry(m, m2, q)
            &&& forall|k: int|
                j <= k < d.entries.len() && (#[trigger] d.entries[k]).1 is Directory
                    ==> fs_is_dir(m2, d.entries[k].1->Directory_0.path)
        }),
    decreases d.entries.len() - j,
{
    if 0 <= j < d.entries.len() {
        let step = match d.entries[j].1 {
            ConfigV::File(f) => spec_file_write::<F>(f, m),
            ConfigV::Directory(dd) => spec_ensure(m, dd.path),
        };
        assert(step is Ok && spec_write_entries(d, j, m) == spec_write_entries(
            d,
            j + 1,
            step->Ok_0,
        ));
        let m1 = step->Ok_0;
        let m2 = spec_write_entries(d, j + 1, m1)->Ok_0;
        lemma_write_entries_shallow(d, j + 1, m1);
        assert(config_path_of_len_ok(d, j));
        assert forall|q: Seq<Seq<char>>| q.len() > d.path.len() + 1 implies #[trigger] same_entry(
            m,
            m1,
            q,
        ) by {
            match d.entries[j].1 {
                ConfigV::File(f) => {
                    assert(f.path == d.path.push(d.entries[j].0));
                    assert(q != f.path);
                },
                ConfigV::Directory(dd) => {
                    assert(dd.path == d.path.push(d.entries[j].0));
                    assert(!(is_prefix_of(q, dd.path) && q.len() >= 1));
                },
            }
        }
        assert forall|q: Seq<Seq<char>>| q.len() > d.path.len() + 1 implies #[trigger] same_entry(
            m,
            m2,
            q,
        ) by {
            assert(same_entry(m, m1, q));
            assert(same_entry(m1, m2, q));
        }
        assert forall|k: int|
            j <= k < d.entries.len() && (#[trigger] d.entries[k]).1 is Directory implies fs_is_dir(
            m2,
            d.entries[k].1->Directory_0.path,
        ) by {
            if k == j {
                let dd = d.entries[j].1->Directory_0;
                assert(fs_is_dir(m1, dd.path)) by {
                    assert(is_prefix_of(dd.path, dd.path)) by {
                        assert(dd.path.subrange(0, dd.path.len() as int) =~= dd.path);
                    }
                }
                assert(crate::fs::dirs_preserved(m1, m2)) by {
                    lemma_write_entries_dirs(d, j + 1, m1);
                }
            } else {
                assert(fs_is_dir(spec_write_entries(d, j + 1, m1)->Ok_0, d.entries[k].1->Directory_0.path));
            }
        }
    } else {
        let m2 = spec_write_entries(d, j, m)->Ok_0;
        assert(m2 == m);
        assert forall|q: Seq<Seq<char>>| q.len() > d.path.len() + 1 implies #[trigger] same_entry(
            m,
            m2,
            q,
        ) by {}
    }
}

/// Helper: shorthand check that the child at `j` sits one level below `d`.
spec fn config_path_of_len_ok<F: Format>(d: DirV<F>, j: int) -> bool {
    0 <= j < d.entries.len() ==> crate::model::config_path_of(d.entries[j].1) == d.path.push(
        d.entries[j].0,
    )
}

/// Writing the children of a directory never demotes a directory.
proof fn lemma_write_entries_dirs<F: Format>(d: DirV<F>, j: int, m: FsView)
    requires
        spec_write_entries(d, j, m) is Ok,
    ensures
        crate::fs::dirs_preserved(m, spec_write_entries(d, j, m)->Ok_0),
    decreases d, d.entries.len() - j,
{
    if 0 <= j < d.entries.len() {
        let step = match d.entries[j].1 {
            ConfigV::File(f) => spec_file_write::<F>(f, m),
            ConfigV::Directory(dd) => if d.options.recursive {
                spec_dir_write(dd, m)
            } else {
                spec_ensure(m, dd.path)
            },
        };
        let m1 = step->Ok_0;
        assert(crate::fs::dirs_preserved(m, m1)) by {
            match d.entries[j].1 {
                ConfigV::File(f) => {
                    assert forall|q: Seq<Seq<char>>| #[trigger]
                        fs_is_dir(m, q) implies fs_is_dir(m1, q) by {
                        assert(q != f.path);
                    }
                },
                ConfigV::Directory(dd) => {
                    if d.options.recursive {
                        lemma_dir_write_dirs(dd, m);
                    } else {
                        crate::model::lemma_frame_mkdir(m, dd.path);
                    }
                },
            }
        }
        lemma_write_entries_dirs(d, j + 1, m1);
        assert forall|q: Seq<Seq<char>>| #[trigger] fs_is_dir(m, q) implies fs_is_dir(
            spec_write_entries(d, j, m)->Ok_0,
            q,
        ) by {
            assert(fs_is_dir(m1, q));
        }
    }
}

/// Writing a directory never demotes a directory.
proof fn lemma_dir_write_dirs<F: Format>(d: DirV<F>, m: FsView)
    requires
        spec_dir_write(d, m) is Ok,
    ensures
        crate::fs::dirs_preserved(m, spec_dir_write(d, m)->Ok_0),
    decreases d, d.entries.len() + 2,
{
    let m1 = spec_ensure(m, d.path)->Ok_0;
    crate::model::lemma_frame_mkdir(m, d.path);
    lemma_write_entries_dirs(d, 0, m1);
    assert forall|q: Seq<Seq<char>>| #[trigger] fs_is_dir(m, q) implies fs_is_dir(
        spec_dir_write(d, m)->Ok_0,
        q,
    ) by {
        assert(fs_is_dir(m1, q));
    }
}

/// Non-recursive write: after successfully writing a directory with
/// `recursive` off, each registered subdirectory exists on disk as a
/// directory, while everything strictly inside those subdirectories is
/// exactly as it was before the write.
pub proof fn lemma_non_recursive_write<F: Format>(d: DirV<F>, m: FsView, i: int)
    requires
        dir_wf(d),
        !d.options.recursive,
        0 <= i < d.entries.len(),
        d.entries[i].1 is Directory,
        spec_dir_write(d, m) is Ok,
    ensures
        ({
            let m2 = spec_dir_write(d, m)->Ok_0;
            let sub = d.entries[i].1->Directory_0;
            &&& fs_is_dir(m2, sub.path)
            &&& forall|q: Seq<Seq<char>>|
                is_prefix_of(sub.path, q) && q.len() > sub.path.len() ==> #[trigger] same_entry(
                    m,
                    m2,
                    q,
                )
        }),
{
    let m1 = spec_ensure(m, d.path)->Ok_0;
    let m2 = spec_dir_write(d, m)->Ok_0;
    let sub = d.entries[i].1->Directory_0;
    assert(sub.path == d.path.push(d.entries[i].0));
    lemma_write_entries_shallow(d, 0, m1);
    crate::model::lemma_frame_mkdir(m, d.path);
    assert forall|q: Seq<Seq<char>>|
        is_prefix_of(sub.path, q) && q.len() > sub.path.len() implies #[trigger] same_entry(
        m,
        m2,
        q,
    ) by {
        assert(q.len() > d.path.len() + 1);
        assert(same_entry(m, m1, q)) by {
            assert(!(is_prefix_of(q, d.path) && q.len() >= 1));
        }
        assert(same_entry(m1, m2, q));
    }
}

/// Discovery: when a directory with `read_new` set is read against a
/// filesystem that holds an unregistered file `name` with decodable
/// non-empty bytes `b` inside it, the resulting directory has a leaf child
/// keyed `name` whose loaded content is the decoding of `b`.
pub proof fn lemma_discovery<F: Format>(
    d: DirV<F>,
    r: DirV<F>,
    m: FsView,
    name: Seq<char>,
    b: Seq<u8>,
)
    requires
        dir_wf(d),
        dir_read_post(d, r, m),
        d.options.read_new,
        fs_is_dir(m, d.path),
        m.contains_key(d.path.push(name)),
        m[d.path.push(name)] == EntryV::File(b),
        !has_key(d.entries, name),
        b.len() > 0,
        F::spec_deserialize(b, None) matches Some(p),
    ensures
        exists|i: int|
            0 <= i < r.entries.len() && (#[trigger] r.entries[i]).0 == name && r.entries[i].1
                is File && config_content(r.entries[i].1) == Some(
                F::spec_deserialize(b, None)->Some_0.0,
            ),
{
    let w = choose|i: int|
        d.entries.len() <= i < r.entries.len() && (#[trigger] r.entries[i]).0 == name;
    assert(discovered_entry_post(d, r.entries[w], m));
    let p = d.path.push(name);
    let g = r.entries[w].1->File_0;
    assert(file_read_post(fresh_file_v::<F>(p), g, m));
    assert(file_bytes_read(m, p) == Some(b));
    F::lemma_deserialize_nonempty(b, None, None);
    assert(config_content(r.entries[w].1) == Some(F::spec_deserialize(b, None)->Some_0.0));
}

} // verus!
