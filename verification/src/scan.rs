//! Building a tree from what a walk finds.
//!
//! The program walks the disk; this module decides which entries are kept, how
//! they are recorded, and what counts as unreadable.

use crate::entry::{EntryKind, EntryView, FileEntry, KindView};
use crate::filter::{any_matches, Filter};
use crate::path::{
    depth, is_rooted, join_of, name_of, parts, root_comes_first, same_path, starts_with,
    strip_drops_prefix_parts, strip_of, PartView, UnixPath,
};
use crate::tree::{
    ascending, items, paths_of, put_all, put_all_takes_from_the_list, raws, Item, Tree,
};
use vstd::prelude::*;

verus! {

/// Result of a tree scan.
#[derive(Debug)]
pub struct Scan {
    pub entries: Tree,
    /// Directories whose contents could not be read, with the error text.
    /// Their contents are missing from `entries` even though they exist, so
    /// the caller must not conclude that those directories are empty.
    pub unreadable: Vec<(UnixPath, String)>,
}

impl Scan {
    /// The scan of a directory that does not exist.
    pub fn empty() -> (scan: Scan)
        ensures
            scan.entries@ == Seq::<Item>::empty(),
            scan.unreadable@.len() == 0,
    {
        Scan { entries: Tree::new(), unreadable: Vec::new() }
    }
}

// ---------------------------------------------------------------------------
// Walking
// ---------------------------------------------------------------------------

/// The filter excludes this path.
pub open spec fn filtered(filter: Filter, rel: Seq<u8>) -> bool {
    ||| name_of(rel) matches Some(name) && any_matches(filter.name_patterns(), name)
    ||| any_matches(filter.path_patterns(), rel)
}

/// True when the child `name` of the directory `dir` stays in the walk below
/// `root`. A child that does not stay is neither recorded nor entered, so that
/// an excluded directory drops out together with its subtree.
pub fn keep_child(root: &UnixPath, dir: &UnixPath, name: &UnixPath, filter: &Filter) -> (keep: bool)
    ensures
        keep == match strip_of(dir@, root@) {
            Some(rel_dir) => !filtered(*filter, join_of(rel_dir, name@)),
            None => true,
        },
{
    match dir.strip_prefix(root) {
        Some(rel_dir) => !filter.excludes(&rel_dir.join(name)),
        None => true,
    }
}

/// What a walk has come across so far.
#[derive(Debug)]
pub struct WalkLog {
    /// Everything but the root, in the order of the walk.
    pub paths: Vec<UnixPath>,
    /// Directories whose contents could not be read, with the error text.
    pub unreadable: Vec<(UnixPath, String)>,
}

/// The contents of a list of unreadable directories.
pub open spec fn reports(list: Seq<(UnixPath, String)>) -> Seq<(Seq<u8>, Seq<char>)> {
    list.map_values(|pair: (UnixPath, String)| (pair.0@, pair.1@))
}

/// The path below the root, or the path itself if it does not lie there.
pub open spec fn below_root(root: Seq<u8>, path: Seq<u8>) -> Seq<u8> {
    match strip_of(path, root) {
        Some(rel) => rel,
        None => path,
    }
}

impl WalkLog {
    /// Nothing yet.
    pub fn new() -> (log: WalkLog)
        ensures
            raws(log.paths@) == Seq::<Seq<u8>>::empty(),
            reports(log.unreadable@) == Seq::<(Seq<u8>, Seq<char>)>::empty(),
    {
        let log = WalkLog { paths: Vec::new(), unreadable: Vec::new() };
        assert(raws(log.paths@) =~= Seq::<Seq<u8>>::empty());
        assert(reports(log.unreadable@) =~= Seq::<(Seq<u8>, Seq<char>)>::empty());
        log
    }

    /// Records an entry of the walk. A failed read of its children is reported
    /// on the directory entry itself: without recording it, the tree would
    /// look as if the directory were empty. The root is not recorded.
    pub fn visit(&mut self, root: &UnixPath, path: UnixPath, read_error: Option<String>)
        ensures
            raws(final(self).paths@) == if same_path(path@, root@) {
                raws(old(self).paths@)
            } else {
                raws(old(self).paths@).push(path@)
            },
            reports(final(self).unreadable@) == match read_error {
                Some(text) => reports(old(self).unreadable@).push(
                    (below_root(root@, path@), text@),
                ),
                None => reports(old(self).unreadable@),
            },
    {
        if let Some(text) = read_error {
            let rel = match path.strip_prefix(root) {
                Some(rel) => rel,
                None => path.duplicate(),
            };
            let ghost before = self.unreadable@;
            let pair = (rel, text);
            self.unreadable.push(pair);
            assert(reports(self.unreadable@) =~= reports(before).push((pair.0@, pair.1@)));
        }
        if !path.same(root) {
            let ghost before = self.paths@;
            self.paths.push(path);
            assert(raws(self.paths@) =~= raws(before).push(path@));
        }
    }
}

/// What a walk yields below its root is named by a relative path with at least
/// one component.
pub proof fn walked_paths_are_relative(root: Seq<u8>, path: Seq<u8>)
    requires
        starts_with(path, root),
        !same_path(path, root),
        depth(root) > 0,
    ensures
        strip_of(path, root) matches Some(rel) && depth(rel) > 0 && !is_rooted(rel) && parts(rel)
            == parts(path).skip(depth(root) as int),
{
    let n = depth(root) as int;
    strip_drops_prefix_parts(path, root);
    if depth(path) == n {
        assert(parts(path).take(n) =~= parts(path));
    }
    let rel = strip_of(path, root)->0;
    if is_rooted(rel) {
        assert(parts(rel)[0] == PartView::Root);
        assert(parts(path)[n] == PartView::Root);
        root_comes_first(path, n);
    }
}

// ---------------------------------------------------------------------------
// Reading entries
// ---------------------------------------------------------------------------

/// The metadata of a path itself, not of what a link there points to.
#[derive(Debug, Clone, Copy)]
pub struct RawMeta {
    pub is_symlink: bool,
    pub is_dir: bool,
    pub is_file: bool,
    pub len: u64,
    /// mtime in whole seconds since the epoch.
    pub mtime: i64,
    /// Unix mode, file type included.
    pub mode: u32,
}

/// What reading the metadata brought.
#[derive(Debug, Clone, Copy)]
pub enum MetaRead {
    Found(RawMeta),
    NotFound,
    Error,
}

/// What reading a link target brought.
#[derive(Debug)]
pub enum LinkRead {
    Target(UnixPath),
    NotFound,
    Error,
}

/// What becomes of a walked path.
#[derive(Debug)]
pub enum EntryRead {
    /// It is recorded.
    Entry(FileEntry),
    /// It is a symlink, whose target has to be read first.
    NeedsLink,
    /// It vanished between the walk and the reading. That is normal for a
    /// source that is in use (lock/cache files) and must not abort the run.
    Vanished,
    /// It is a special file (FIFO, socket, device). Opening a FIFO blocks until
    /// a writer connects, so these are left out.
    Special,
    /// It could not be read: the scan has to be given up.
    Failed,
}

/// The entry that is recorded for a kind and its metadata.
pub open spec fn recorded(meta: RawMeta, kind: KindView) -> EntryView {
    EntryView {
        kind,
        size: if meta.is_file {
            meta.len
        } else {
            0
        },
        mtime: meta.mtime,
        mode: meta.mode & 0o7777,
    }
}

fn record(meta: RawMeta, kind: EntryKind) -> (entry: FileEntry)
    ensures
        entry@ == recorded(meta, kind@),
{
    let size: u64 = if meta.is_file {
        meta.len
    } else {
        0
    };
    FileEntry { kind, size, mtime: meta.mtime, mode: meta.mode & 0o7777 }
}

/// What becomes of a walked path, by its metadata.
pub fn read_entry(read: MetaRead) -> (out: EntryRead)
    ensures
        match read {
            MetaRead::Found(meta) => if meta.is_symlink {
                out is NeedsLink
            } else if meta.is_dir {
                out matches EntryRead::Entry(e) && e@ == recorded(meta, KindView::Dir)
            } else if meta.is_file {
                out matches EntryRead::Entry(e) && e@ == recorded(meta, KindView::File)
            } else {
                out is Special
            },
            MetaRead::NotFound => out is Vanished,
            MetaRead::Error => out is Failed,
        },
{
    match read {
        MetaRead::Found(meta) => {
            if meta.is_symlink {
                EntryRead::NeedsLink
            } else if meta.is_dir {
                EntryRead::Entry(record(meta, EntryKind::Dir))
            } else if meta.is_file {
                EntryRead::Entry(record(meta, EntryKind::File))
            } else {
                EntryRead::Special
            }
        },
        MetaRead::NotFound => EntryRead::Vanished,
        MetaRead::Error => EntryRead::Failed,
    }
}

/// What becomes of a walked symlink, by its target.
pub fn read_link_entry(meta: RawMeta, link: LinkRead) -> (out: EntryRead)
    ensures
        match link {
            LinkRead::Target(target) => out matches EntryRead::Entry(e) && e@ == recorded(
                meta,
                KindView::Symlink(target@),
            ),
            LinkRead::NotFound => out is Vanished,
            LinkRead::Error => out is Failed,
        },
{
    match link {
        LinkRead::Target(target) => EntryRead::Entry(
            record(meta, EntryKind::Symlink { target }),
        ),
        LinkRead::NotFound => EntryRead::Vanished,
        LinkRead::Error => EntryRead::Failed,
    }
}

/// The entry that reading a walked path brought, as a list of one or none.
pub open spec fn entry_of(root: Seq<u8>, path: Seq<u8>, read: EntryRead) -> Seq<Item> {
    match (strip_of(path, root), read) {
        (Some(rel), EntryRead::Entry(e)) => seq![Item { path: rel, entry: e@ }],
        _ => Seq::empty(),
    }
}

/// The entries that reading the walked paths brought, in their order.
pub open spec fn entries_of(root: Seq<u8>, list: Seq<(UnixPath, EntryRead)>) -> Seq<Item>
    decreases list.len(),
{
    if list.len() == 0 {
        Seq::empty()
    } else {
        entries_of(root, list.drop_last()) + entry_of(root, list.last().0@, list.last().1)
    }
}

/// The path does not lie below the root, or could not be read.
pub open spec fn is_lost(root: Seq<u8>, path: Seq<u8>, read: EntryRead) -> bool {
    strip_of(path, root) is None || read is Failed
}

/// Some path does not lie below the root, or could not be read.
pub open spec fn any_lost(root: Seq<u8>, list: Seq<(UnixPath, EntryRead)>) -> bool {
    exists|i: int| 0 <= i < list.len() && is_lost(root, (#[trigger] list[i]).0@, list[i].1)
}

/// The tree of what was read, by path relative to the root of the scan.
/// Vanished entries and special files drop out. There is no tree if some path
/// does not lie below the root or could not be read.
pub fn collect(root: &UnixPath, list: Vec<(UnixPath, EntryRead)>) -> (tree: Option<Tree>)
    ensures
        tree is None <==> any_lost(root@, list@),
        tree matches Some(t) ==> t@ == put_all(entries_of(root@, list@)) && ascending(
            paths_of(t@),
        ),
{
    let ghost all = list@;
    let mut entries: Vec<(UnixPath, FileEntry)> = Vec::new();
    let mut lost = false;
    assert(items(entries@) =~= entries_of(root@, all.take(0)));
    for pair in it: list
        invariant
            it.seq() == all,
            items(entries@) == entries_of(root@, all.take(it.index() as int)),
            lost == any_lost(root@, all.take(it.index() as int)),
    {
        let ghost k = it.index() as int;
        proof {
            lemma_one_more_read(root@, all, k);
        }
        let (path, read) = pair;
        let ghost before = entries@;
        assert(items(before) + Seq::<Item>::empty() =~= items(before));
        match path.strip_prefix(root) {
            Some(rel) => match read {
                EntryRead::Entry(entry) => {
                    let next = (rel, entry);
                    entries.push(next);
                    assert(items(entries@) =~= items(before) + seq![
                        Item { path: next.0@, entry: next.1@ },
                    ]);
                },
                EntryRead::Failed => {
                    lost = true;
                },
                _ => {},
            },
            None => {
                lost = true;
            },
        }
    }
    assert(all.take(all.len() as int) =~= all);
    if lost {
        None
    } else {
        Some(Tree::from_entries(entries))
    }
}

proof fn lemma_one_more_read(root: Seq<u8>, all: Seq<(UnixPath, EntryRead)>, k: int)
    requires
        0 <= k < all.len(),
    ensures
        entries_of(root, all.take(k + 1)) == entries_of(root, all.take(k)) + entry_of(
            root,
            all[k].0@,
            all[k].1,
        ),
        any_lost(root, all.take(k + 1)) == (any_lost(root, all.take(k)) || is_lost(
            root,
            all[k].0@,
            all[k].1,
        )),
{
    let a = all.take(k);
    let b = all.take(k + 1);
    assert(b.drop_last() =~= a);
    assert(b.last() == all[k]);
    if any_lost(root, a) {
        let i = choose|i: int|
            0 <= i < a.len() && is_lost(root, (#[trigger] a[i]).0@, a[i].1);
        assert(is_lost(root, b[i].0@, b[i].1));
    }
    if is_lost(root, all[k].0@, all[k].1) {
        assert(is_lost(root, b[k].0@, b[k].1));
    }
    if any_lost(root, b) {
        let i = choose|i: int|
            0 <= i < b.len() && is_lost(root, (#[trigger] b[i]).0@, b[i].1);
        if i < k {
            assert(is_lost(root, a[i].0@, a[i].1));
        }
    }
}

/// Where a recorded entry comes from.
proof fn lemma_entry_source(root: Seq<u8>, list: Seq<(UnixPath, EntryRead)>, j: int) -> (i: int)
    requires
        0 <= j < entries_of(root, list).len(),
    ensures
        0 <= i < list.len(),
        strip_of(list[i].0@, root) == Some(entries_of(root, list)[j].path),
    decreases list.len(),
{
    let rest = list.drop_last();
    let n = entries_of(root, rest).len();
    if j < n {
        lemma_entry_source(root, rest, j)
    } else {
        list.len() - 1
    }
}

/// A scan records relative paths with at least one component only: the root
/// itself is not among them.
pub proof fn scans_leave_the_root_out(root: Seq<u8>, list: Seq<(UnixPath, EntryRead)>, j: int)
    requires
        depth(root) > 0,
        forall|i: int| 0 <= i < list.len() ==> !same_path((#[trigger] list[i]).0@, root),
        0 <= j < put_all(entries_of(root, list)).len(),
    ensures
        depth(put_all(entries_of(root, list))[j].path) > 0,
        !is_rooted(put_all(entries_of(root, list))[j].path),
{
    let all = entries_of(root, list);
    let k = put_all_takes_from_the_list(all, j);
    let i = lemma_entry_source(root, list, k);
    walked_paths_are_relative(root, list[i].0@);
}

} // verus!
