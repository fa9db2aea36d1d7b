//! The comparison of two scanned trees and the list of actions that brings the
//! target in line with the source.

use crate::entry::{same_type, EntryKind, EntryView, FileEntry, KindView};
use crate::path::{
    depth, parent_drops_last_part, parent_of, parts, path_less, root_comes_first, same_path,
    PartView, UnixPath,
};
use crate::picks::{
    by_depth, deep_first, filter_members, filter_step, in_range, picked, picked_push,
    shallow_first,
};
use crate::tree::{
    ascending, found_at, found_once, holds, lookup, paths_of, raws, with_path_adds_one, Item,
    PathSet, Tree,
};
use vstd::prelude::*;

verus! {

/// The contents of an [`Action`].
pub enum ActionView {
    RemoveConflict(Seq<u8>),
    CreateDir(Seq<u8>),
    Copy { rel: Seq<u8>, size: u64 },
    CreateSymlink { rel: Seq<u8>, target: Seq<u8>, mtime: i64 },
    DeleteFile(Seq<u8>),
    DeleteDir(Seq<u8>),
    SetDirMeta { rel: Seq<u8>, mtime: i64, mode: u32 },
    SetFileMeta { rel: Seq<u8>, mode: u32 },
}

#[derive(Debug, PartialEq, Eq)]
pub enum Action {
    /// Remove a blocking target of the wrong type (runs before Create/Copy).
    RemoveConflict(UnixPath),
    CreateDir(UnixPath),
    Copy { rel: UnixPath, size: u64 },
    /// Create symlink `rel` pointing at `target` (fresh). `mtime` is applied.
    CreateSymlink { rel: UnixPath, target: UnixPath, mtime: i64 },
    DeleteFile(UnixPath),
    /// Delete a directory with all that it holds, unless it holds an excluded
    /// entry.
    DeleteDir(UnixPath),
    /// Apply a directory's mtime + permissions from the source
    /// (runs at the very end, deepest first).
    SetDirMeta { rel: UnixPath, mtime: i64, mode: u32 },
    /// Align the permissions of a file whose contents are unchanged. chmod on
    /// the source only changes the ctime, not the mtime: without this action
    /// pure permission drift would never be mirrored.
    SetFileMeta { rel: UnixPath, mode: u32 },
}

impl View for Action {
    type V = ActionView;

    open spec fn view(&self) -> ActionView {
        match self {
            Action::RemoveConflict(rel) => ActionView::RemoveConflict(rel@),
            Action::CreateDir(rel) => ActionView::CreateDir(rel@),
            Action::Copy { rel, size } => ActionView::Copy { rel: rel@, size: *size },
            Action::CreateSymlink { rel, target, mtime } => ActionView::CreateSymlink {
                rel: rel@,
                target: target@,
                mtime: *mtime,
            },
            Action::DeleteFile(rel) => ActionView::DeleteFile(rel@),
            Action::DeleteDir(rel) => ActionView::DeleteDir(rel@),
            Action::SetDirMeta { rel, mtime, mode } => ActionView::SetDirMeta {
                rel: rel@,
                mtime: *mtime,
                mode: *mode,
            },
            Action::SetFileMeta { rel, mode } => ActionView::SetFileMeta { rel: rel@, mode: *mode },
        }
    }
}

impl Clone for Action {
    fn clone(&self) -> (copy: Self)
        ensures
            copy@ == self@,
    {
        match self {
            Action::RemoveConflict(rel) => Action::RemoveConflict(rel.duplicate()),
            Action::CreateDir(rel) => Action::CreateDir(rel.duplicate()),
            Action::Copy { rel, size } => Action::Copy { rel: rel.duplicate(), size: *size },
            Action::CreateSymlink { rel, target, mtime } => Action::CreateSymlink {
                rel: rel.duplicate(),
                target: target.duplicate(),
                mtime: *mtime,
            },
            Action::DeleteFile(rel) => Action::DeleteFile(rel.duplicate()),
            Action::DeleteDir(rel) => Action::DeleteDir(rel.duplicate()),
            Action::SetDirMeta { rel, mtime, mode } => Action::SetDirMeta {
                rel: rel.duplicate(),
                mtime: *mtime,
                mode: *mode,
            },
            Action::SetFileMeta { rel, mode } => Action::SetFileMeta {
                rel: rel.duplicate(),
                mode: *mode,
            },
        }
    }
}

/// The contents of a list of actions.
pub open spec fn action_views(list: Seq<Action>) -> Seq<ActionView> {
    list.map_values(|a: Action| a@)
}

#[derive(Debug, PartialEq, Eq)]
pub struct Stats {
    pub copy_count: u64,
    pub copy_bytes: u64,
    pub delete_count: u64,
    pub mkdir_count: u64,
    pub skip_count: u64,
    /// Files whose contents are unchanged but whose permissions get aligned
    /// (SetFileMeta).
    pub meta_count: u64,
}

impl Default for Stats {
    fn default() -> (stats: Self)
        ensures
            stats == (Stats {
                copy_count: 0,
                copy_bytes: 0,
                delete_count: 0,
                mkdir_count: 0,
                skip_count: 0,
                meta_count: 0,
            }),
    {
        Stats {
            copy_count: 0,
            copy_bytes: 0,
            delete_count: 0,
            mkdir_count: 0,
            skip_count: 0,
            meta_count: 0,
        }
    }
}

// ---------------------------------------------------------------------------
// One entry against its counterpart
// ---------------------------------------------------------------------------

/// How far two times lie apart.
pub open spec fn gap(a: i64, b: i64) -> int {
    if a >= b {
        a - b
    } else {
        b - a
    }
}

/// The counterpart exists and has the same type.
pub open spec fn matched(s: EntryView, d: Option<EntryView>) -> bool {
    d matches Some(e) && same_type(s.kind, e.kind)
}

/// The counterpart exists and has another type, so that it is in the way.
pub open spec fn blocked(s: EntryView, d: Option<EntryView>) -> bool {
    d matches Some(e) && !same_type(s.kind, e.kind)
}

/// Same size, and mtime within tolerance.
pub open spec fn looks_unchanged(s: EntryView, d: EntryView, tol: i64) -> bool {
    s.size == d.size && gap(s.mtime, d.mtime) <= tol
}

/// A file that stays as it is: it looks unchanged, and no copy is forced.
pub open spec fn stays(s: EntryView, d: Option<EntryView>, tol: i64, forced: bool) -> bool {
    s.kind is File && matched(s, d) && looks_unchanged(s, d->0, tol) && !forced
}

/// A directory whose mtime (within tolerance) and mode are in place.
pub open spec fn dir_in_sync(s: EntryView, d: Option<EntryView>, tol: i64) -> bool {
    matched(s, d) && gap(s.mtime, d->0.mtime) <= tol && s.mode == d->0.mode
}

/// A symlink with the same target, and mtime within tolerance.
pub open spec fn link_in_sync(s: EntryView, d: Option<EntryView>, tol: i64) -> bool {
    match (s.kind, d) {
        (KindView::Symlink(target), Some(e)) => match e.kind {
            KindView::Symlink(other) => same_path(other, target) && gap(s.mtime, e.mtime) <= tol,
            _ => false,
        },
        _ => false,
    }
}

// ---------------------------------------------------------------------------
// The lists that make up a plan
// ---------------------------------------------------------------------------

/// Entries whose counterpart is in the way.
pub open spec fn conflicts(src: Seq<Item>, dst: Seq<Item>) -> Seq<Item> {
    src.filter(|i: Item| blocked(i.entry, lookup(dst, i.path)))
}

/// Directories that have to be created.
pub open spec fn new_dirs(src: Seq<Item>, dst: Seq<Item>) -> Seq<Item> {
    src.filter(|i: Item| i.entry.kind is Dir && !matched(i.entry, lookup(dst, i.path)))
}

/// Files that stay as they are.
pub open spec fn kept(src: Seq<Item>, dst: Seq<Item>, tol: i64, forced: Seq<Seq<u8>>) -> Seq<Item> {
    src.filter(|i: Item| stays(i.entry, lookup(dst, i.path), tol, holds(forced, i.path)))
}

/// Files that have to be copied.
pub open spec fn copies(src: Seq<Item>, dst: Seq<Item>, tol: i64, forced: Seq<Seq<u8>>) -> Seq<
    Item,
> {
    src.filter(
        |i: Item|
            i.entry.kind is File && !stays(
                i.entry,
                lookup(dst, i.path),
                tol,
                holds(forced, i.path),
            ),
    )
}

/// Symlinks that have to be created afresh.
pub open spec fn new_links(src: Seq<Item>, dst: Seq<Item>, tol: i64) -> Seq<Item> {
    src.filter(
        |i: Item| i.entry.kind is Symlink && !link_in_sync(i.entry, lookup(dst, i.path), tol),
    )
}

/// Files that stay as they are but for their permissions.
pub open spec fn mode_fixes(
    src: Seq<Item>,
    dst: Seq<Item>,
    tol: i64,
    forced: Seq<Seq<u8>>,
) -> Seq<Item> {
    src.filter(
        |i: Item|
            stays(i.entry, lookup(dst, i.path), tol, holds(forced, i.path)) && i.entry.mode
                != lookup(dst, i.path)->0.mode,
    )
}

/// `above` names a directory that `path` lies in.
pub open spec fn is_above(above: Seq<u8>, path: Seq<u8>) -> bool {
    &&& depth(above) < depth(path)
    &&& parts(path).take(depth(above) as int) == parts(above)
    &&& depth(above) == 0 ==> parts(path)[0] != PartView::Root
}

/// `path` lies in one of the listed directories.
pub open spec fn lies_under(list: Seq<Item>, path: Seq<u8>) -> bool {
    exists|i: int| 0 <= i < list.len() && is_above((#[trigger] list[i]).path, path)
}

/// An entry of the target that the source lacks, and that no removed conflict
/// takes along.
pub open spec fn is_stale(item: Item, src: Seq<Item>, dst: Seq<Item>) -> bool {
    lookup(src, item.path) is None && !lies_under(conflicts(src, dst), item.path)
}

/// Files and symlinks that have to go.
pub open spec fn stale_files(list: Seq<Item>, src: Seq<Item>, dst: Seq<Item>) -> Seq<Item> {
    list.filter(|i: Item| is_stale(i, src, dst) && !(i.entry.kind is Dir))
}

/// Directories that have to go.
pub open spec fn stale_dirs(list: Seq<Item>, src: Seq<Item>, dst: Seq<Item>) -> Seq<Item> {
    list.filter(|i: Item| is_stale(i, src, dst) && i.entry.kind is Dir)
}

/// `path` is the directory that directly holds one of the listed entries.
pub open spec fn holds_child(list: Seq<Item>, path: Seq<u8>) -> bool {
    exists|i: int| 0 <= i < list.len() && is_parent(path, (#[trigger] list[i]).path)
}

/// `path` is the directory that directly holds `child`, and not the root of
/// the tree.
pub open spec fn is_parent(path: Seq<u8>, child: Seq<u8>) -> bool {
    parent_of(child) matches Some(p) && p.len() > 0 && same_path(p, path)
}

/// Entries that an action creates, replaces or removes.
pub open spec fn changed(src: Seq<Item>, dst: Seq<Item>, tol: i64, forced: Seq<Seq<u8>>) -> Seq<
    Item,
> {
    conflicts(src, dst) + new_dirs(src, dst) + stale_files(dst, src, dst) + stale_dirs(
        dst,
        src,
        dst,
    ) + copies(src, dst, tol, forced) + new_links(src, dst, tol)
}

/// Directories whose mtime and mode have to be set: they differ, or a change
/// inside touches the mtime.
pub open spec fn dir_metas(src: Seq<Item>, dst: Seq<Item>, tol: i64, forced: Seq<Seq<u8>>) -> Seq<
    Item,
> {
    src.filter(
        |i: Item|
            i.entry.kind is Dir && (!dir_in_sync(i.entry, lookup(dst, i.path), tol) || holds_child(
                changed(src, dst, tol, forced),
                i.path,
            )),
    )
}

/// What is to be done with an entry.
pub enum Step {
    Conflict,
    MakeDir,
    Copy,
    Link,
    Mode,
    DropFile,
    DropDir,
    DirMeta,
}

/// The action that takes a step for an entry.
pub open spec fn render(item: Item, step: Step) -> ActionView {
    match step {
        Step::Conflict => ActionView::RemoveConflict(item.path),
        Step::MakeDir => ActionView::CreateDir(item.path),
        Step::Copy => ActionView::Copy { rel: item.path, size: item.entry.size },
        Step::Link => ActionView::CreateSymlink {
            rel: item.path,
            target: item.entry.kind->Symlink_0,
            mtime: item.entry.mtime,
        },
        Step::Mode => ActionView::SetFileMeta { rel: item.path, mode: item.entry.mode },
        Step::DropFile => ActionView::DeleteFile(item.path),
        Step::DropDir => ActionView::DeleteDir(item.path),
        Step::DirMeta => ActionView::SetDirMeta {
            rel: item.path,
            mtime: item.entry.mtime,
            mode: item.entry.mode,
        },
    }
}

/// The actions that take a step for each of the entries.
pub open spec fn rendered(list: Seq<Item>, step: Step) -> Seq<ActionView> {
    list.map_values(|i: Item| render(i, step))
}

/// The actions that bring the target in line with the source, in the order in
/// which they run.
pub open spec fn planned(
    src: Seq<Item>,
    dst: Seq<Item>,
    tol: i64,
    forced: Seq<Seq<u8>>,
) -> Seq<ActionView> {
    rendered(conflicts(src, dst), Step::Conflict) + rendered(
        shallow_first(new_dirs(src, dst)),
        Step::MakeDir,
    ) + rendered(copies(src, dst, tol, forced), Step::Copy) + rendered(
        new_links(src, dst, tol),
        Step::Link,
    ) + rendered(mode_fixes(src, dst, tol, forced), Step::Mode) + rendered(
        stale_files(dst, src, dst),
        Step::DropFile,
    ) + rendered(deep_first(stale_dirs(dst, src, dst)), Step::DropDir) + rendered(
        deep_first(dir_metas(src, dst, tol, forced)),
        Step::DirMeta,
    )
}

/// The bytes of the listed files together.
pub open spec fn total_size(list: Seq<Item>) -> nat
    decreases list.len(),
{
    if list.len() == 0 {
        0
    } else {
        total_size(list.drop_last()) + list.last().entry.size as nat
    }
}

/// The figures of a plan.
pub open spec fn tally(src: Seq<Item>, dst: Seq<Item>, tol: i64, forced: Seq<Seq<u8>>) -> Stats {
    Stats {
        copy_count: (copies(src, dst, tol, forced).len() + new_links(src, dst, tol).len()) as u64,
        copy_bytes: total_size(copies(src, dst, tol, forced)) as u64,
        delete_count: (conflicts(src, dst).len() + stale_files(dst, src, dst).len() + stale_dirs(
            dst,
            src,
            dst,
        ).len()) as u64,
        mkdir_count: new_dirs(src, dst).len() as u64,
        skip_count: kept(src, dst, tol, forced).len() as u64,
        meta_count: mode_fixes(src, dst, tol, forced).len() as u64,
    }
}

/// The figures of the plan can be told: the bytes to be copied can be summed
/// up.
pub open spec fn plan_fits(
    src: Seq<Item>,
    dst: Seq<Item>,
    tol: i64,
    forced: Seq<Seq<u8>>,
) -> bool {
    total_size(copies(src, dst, tol, forced)) <= u64::MAX
}

// ---------------------------------------------------------------------------
// Building the plan
// ---------------------------------------------------------------------------

/// True when two times lie at most `tol` seconds apart.
pub fn times_within(a: i64, b: i64, tol: i64) -> (within: bool)
    ensures
        within == (gap(a, b) <= tol),
{
    let diff: i128 = a as i128 - b as i128;
    if diff < 0 {
        -diff <= tol as i128
    } else {
        diff <= tol as i128
    }
}

/// True when the dest file counts as unchanged (same size, mtime within
/// tolerance).
pub fn unchanged(s: &FileEntry, d: &FileEntry, mtime_tol: i64) -> (same: bool)
    ensures
        same == looks_unchanged(s@, d@, mtime_tol),
{
    s.size == d.size && times_within(s.mtime, d.mtime, mtime_tol)
}

/// What the comparison of an entry with its counterpart asks for.
struct Verdict {
    conflict: bool,
    make_dir: bool,
    stays: bool,
    copy: bool,
    link: bool,
    fix_mode: bool,
}

/// Compares a source entry with its counterpart.
fn judge(s: &FileEntry, dest: Option<&FileEntry>, tol: i64, forced: bool) -> (v: Verdict)
    ensures
        v.conflict == blocked(s@, dest_view(dest)),
        v.make_dir == (s@.kind is Dir && !matched(s@, dest_view(dest))),
        v.stays == stays(s@, dest_view(dest), tol, forced),
        v.copy == (s@.kind is File && !stays(s@, dest_view(dest), tol, forced)),
        v.link == (s@.kind is Symlink && !link_in_sync(s@, dest_view(dest), tol)),
        v.fix_mode == (stays(s@, dest_view(dest), tol, forced) && s@.mode != dest_view(
            dest,
        )->0.mode),
{
    let mut v = Verdict {
        conflict: false,
        make_dir: false,
        stays: false,
        copy: false,
        link: false,
        fix_mode: false,
    };
    let type_matches = match dest {
        Some(d) => s.kind.same_type(&d.kind),
        None => false,
    };
    // Wrong type on the target: remove it as a conflict.
    v.conflict = dest.is_some() && !type_matches;
    match &s.kind {
        EntryKind::Dir => {
            v.make_dir = !type_matches;
        },
        EntryKind::File => {
            match dest {
                Some(d) if type_matches && unchanged(s, d, tol) && !forced => {
                    v.stays = true;
                    // Contents unchanged but permissions differ (chmod only
                    // changes the ctime): align the metadata instead of
                    // copying.
                    v.fix_mode = s.mode != d.mode;
                },
                _ => {
                    v.copy = true;
                },
            }
        },
        EntryKind::Symlink { target } => {
            // Equal = same target AND mtime within tolerance. Recreating is
            // cheap and sets the mtime along the way.
            let same_link = match dest {
                Some(d) => match &d.kind {
                    EntryKind::Symlink { target: other } => other.same(target) && times_within(
                        s.mtime,
                        d.mtime,
                        tol,
                    ),
                    _ => false,
                },
                None => false,
            };
            v.link = !same_link;
        },
    }
    v
}

/// The contents of an entry that may be missing.
pub open spec fn dest_view(dest: Option<&FileEntry>) -> Option<EntryView> {
    match dest {
        Some(d) => Some(d@),
        None => None,
    }
}

/// True when the directory's mtime (within tolerance) and mode are in place.
fn dir_meta_ok(s: &FileEntry, dest: Option<&FileEntry>, tol: i64) -> (ok: bool)
    requires
        s@.kind is Dir,
    ensures
        ok == dir_in_sync(s@, dest_view(dest), tol),
{
    match dest {
        Some(d) => s.kind.same_type(&d.kind) && times_within(s.mtime, d.mtime, tol) && s.mode
            == d.mode,
        None => false,
    }
}

/// Positions of the source entries, by what has to be done with them.
struct Sorted {
    conflicts: Vec<usize>,
    mkdirs: Vec<usize>,
    copies: Vec<usize>,
    links: Vec<usize>,
    modes: Vec<usize>,
}

impl Sorted {
    spec fn in_range(self, n: nat) -> bool {
        &&& in_range(self.conflicts@, n)
        &&& in_range(self.mkdirs@, n)
        &&& in_range(self.copies@, n)
        &&& in_range(self.links@, n)
        &&& in_range(self.modes@, n)
    }

    /// The lists hold what the entries `part` of the tree `src` ask for.
    spec fn sorts(
        self,
        part: Seq<Item>,
        src: Seq<Item>,
        dst: Seq<Item>,
        tol: i64,
        forced: Seq<Seq<u8>>,
    ) -> bool {
        &&& picked(src, self.conflicts@) == conflicts(part, dst)
        &&& picked(src, self.mkdirs@) == new_dirs(part, dst)
        &&& picked(src, self.copies@) == copies(part, dst, tol, forced)
        &&& picked(src, self.links@) == new_links(part, dst, tol)
        &&& picked(src, self.modes@) == mode_fixes(part, dst, tol, forced)
    }
}

/// Summing up one file more.
proof fn lemma_total_size_push(list: Seq<Item>, item: Item)
    ensures
        total_size(list.push(item)) == total_size(list) + item.entry.size,
{
    assert(list.push(item).drop_last() =~= list);
}

/// The first files of a list have at most the bytes of all of them.
proof fn lemma_total_size_monotone(
    src: Seq<Item>,
    dst: Seq<Item>,
    tol: i64,
    forced: Seq<Seq<u8>>,
    i: int,
)
    requires
        0 <= i <= src.len(),
    ensures
        total_size(copies(src.take(i), dst, tol, forced)) <= total_size(
            copies(src, dst, tol, forced),
        ),
    decreases src.len() - i,
{
    if i == src.len() {
        assert(src.take(i) =~= src);
    } else {
        lemma_sort_step(src, dst, tol, forced, i);
        lemma_total_size_push(copies(src.take(i), dst, tol, forced), src[i]);
        lemma_total_size_monotone(src, dst, tol, forced, i + 1);
    }
}

/// What one source entry more adds to the lists.
proof fn lemma_sort_step(
    src: Seq<Item>,
    dst: Seq<Item>,
    tol: i64,
    forced: Seq<Seq<u8>>,
    i: int,
)
    requires
        0 <= i < src.len(),
    ensures
        ({
            let a = src.take(i);
            let b = src.take(i + 1);
            let s = src[i].entry;
            let d = lookup(dst, src[i].path);
            let f = holds(forced, src[i].path);
            &&& conflicts(b, dst) == if blocked(s, d) {
                conflicts(a, dst).push(src[i])
            } else {
                conflicts(a, dst)
            }
            &&& new_dirs(b, dst) == if s.kind is Dir && !matched(s, d) {
                new_dirs(a, dst).push(src[i])
            } else {
                new_dirs(a, dst)
            }
            &&& kept(b, dst, tol, forced) == if stays(s, d, tol, f) {
                kept(a, dst, tol, forced).push(src[i])
            } else {
                kept(a, dst, tol, forced)
            }
            &&& copies(b, dst, tol, forced) == if s.kind is File && !stays(s, d, tol, f) {
                copies(a, dst, tol, forced).push(src[i])
            } else {
                copies(a, dst, tol, forced)
            }
            &&& new_links(b, dst, tol) == if s.kind is Symlink && !link_in_sync(s, d, tol) {
                new_links(a, dst, tol).push(src[i])
            } else {
                new_links(a, dst, tol)
            }
            &&& mode_fixes(b, dst, tol, forced) == if stays(s, d, tol, f) && s.mode != d->0.mode {
                mode_fixes(a, dst, tol, forced).push(src[i])
            } else {
                mode_fixes(a, dst, tol, forced)
            }
        }),
{
    filter_step(src, i, |i: Item| blocked(i.entry, lookup(dst, i.path)));
    filter_step(
        src,
        i,
        |i: Item| i.entry.kind is Dir && !matched(i.entry, lookup(dst, i.path)),
    );
    filter_step(
        src,
        i,
        |i: Item| stays(i.entry, lookup(dst, i.path), tol, holds(forced, i.path)),
    );
    filter_step(
        src,
        i,
        |i: Item|
            i.entry.kind is File && !stays(
                i.entry,
                lookup(dst, i.path),
                tol,
                holds(forced, i.path),
            ),
    );
    filter_step(
        src,
        i,
        |i: Item| i.entry.kind is Symlink && !link_in_sync(i.entry, lookup(dst, i.path), tol),
    );
    filter_step(
        src,
        i,
        |i: Item|
            stays(i.entry, lookup(dst, i.path), tol, holds(forced, i.path)) && i.entry.mode
                != lookup(dst, i.path)->0.mode,
    );
}

/// Nothing asks for anything before the first entry.
proof fn lemma_sort_start(src: Seq<Item>, dst: Seq<Item>, tol: i64, forced: Seq<Seq<u8>>)
    ensures
        src.take(0) == Seq::<Item>::empty(),
        conflicts(src.take(0), dst) == Seq::<Item>::empty(),
        new_dirs(src.take(0), dst) == Seq::<Item>::empty(),
        kept(src.take(0), dst, tol, forced) == Seq::<Item>::empty(),
        copies(src.take(0), dst, tol, forced) == Seq::<Item>::empty(),
        new_links(src.take(0), dst, tol) == Seq::<Item>::empty(),
        mode_fixes(src.take(0), dst, tol, forced) == Seq::<Item>::empty(),
{
    reveal(Seq::filter);
    assert(src.take(0) =~= Seq::<Item>::empty());
}

/// Goes through the source and sorts its entries by what has to be done with
/// them.
fn sort_source(source: &Tree, dest: &Tree, tol: i64, forced: &PathSet, stats: &mut Stats) -> (out:
    Sorted)
    requires
        plan_fits(source@, dest@, tol, forced@),
        *old(stats) == (Stats {
            copy_count: 0,
            copy_bytes: 0,
            delete_count: 0,
            mkdir_count: 0,
            skip_count: 0,
            meta_count: 0,
        }),
    ensures
        out.in_range(source@.len()),
        out.sorts(source@, source@, dest@, tol, forced@),
        final(stats).copy_count == out.copies@.len() + out.links@.len(),
        final(stats).copy_bytes == total_size(copies(source@, dest@, tol, forced@)),
        final(stats).delete_count == out.conflicts@.len(),
        final(stats).mkdir_count == out.mkdirs@.len(),
        final(stats).skip_count == kept(source@, dest@, tol, forced@).len(),
        final(stats).meta_count == out.modes@.len(),
{
    let ghost src = source@;
    let ghost dst = dest@;
    let mut out = Sorted {
        conflicts: Vec::new(),
        mkdirs: Vec::new(),
        copies: Vec::new(),
        links: Vec::new(),
        modes: Vec::new(),
    };
    let n = source.len();
    let mut i: usize = 0;
    proof {
        lemma_sort_start(src, dst, tol, forced@);
        assert(picked(src, Seq::<usize>::empty()) =~= Seq::<Item>::empty());
        assert(out.sorts(src.take(0), src, dst, tol, forced@));
    }
    while i < n
        invariant
            src == source@,
            dst == dest@,
            i <= n == src.len(),
            plan_fits(src, dst, tol, forced@),
            out.in_range(src.len()),
            out.sorts(src.take(i as int), src, dst, tol, forced@),
            stats.copy_count == out.copies@.len() + out.links@.len() <= i,
            stats.copy_bytes == total_size(copies(src.take(i as int), dst, tol, forced@)),
            stats.delete_count == out.conflicts@.len() <= i,
            stats.mkdir_count == out.mkdirs@.len() <= i,
            stats.skip_count == kept(src.take(i as int), dst, tol, forced@).len() <= i,
            stats.meta_count == out.modes@.len() <= i,
        decreases n - i,
    {
        let rel = source.path_at(i);
        let s = source.entry_at(i);
        let d = dest.get(rel);
        assert(dest_view(d) == lookup(dst, src[i as int].path));
        let v = judge(s, d, tol, forced.contains(rel));
        let ghost at = i as int;
        proof {
            lemma_sort_step(src, dst, tol, forced@, at);
            lemma_total_size_push(copies(src.take(at), dst, tol, forced@), src[at]);
            lemma_total_size_monotone(src, dst, tol, forced@, at + 1);
            picked_push(src, out.conflicts@, i);
            picked_push(src, out.mkdirs@, i);
            picked_push(src, out.copies@, i);
            picked_push(src, out.links@, i);
            picked_push(src, out.modes@, i);
        }
        if v.conflict {
            out.conflicts.push(i);
            stats.delete_count += 1;
        }
        if v.make_dir {
            out.mkdirs.push(i);
            stats.mkdir_count += 1;
        }
        if v.stays {
            stats.skip_count += 1;
        }
        if v.fix_mode {
            out.modes.push(i);
            stats.meta_count += 1;
        }
        if v.copy {
            out.copies.push(i);
            stats.copy_count += 1;
            stats.copy_bytes += s.size;
        }
        if v.link {
            out.links.push(i);
            stats.copy_count += 1;
        }
        i += 1;
    }
    assert(src.take(n as int) =~= src);
    out
}

/// The set of the paths at these positions.
fn path_set(tree: &Tree, list: &Vec<usize>) -> (set: PathSet)
    requires
        in_range(list@, tree@.len()),
    ensures
        ascending(set@),
        forall|q: Seq<u8>| #[trigger]
            holds(set@, q) == holds(paths_of(picked(tree@, list@)), q),
{
    let mut set = PathSet::new();
    let ghost all = paths_of(picked(tree@, list@));
    let mut i: usize = 0;
    assert(all.take(0) =~= set@);
    while i < list.len()
        invariant
            i <= list@.len(),
            in_range(list@, tree@.len()),
            all == paths_of(picked(tree@, list@)),
            ascending(set@),
            forall|q: Seq<u8>| #[trigger] holds(set@, q) == holds(all.take(i as int), q),
        decreases list@.len() - i,
    {
        let ghost before = set@;
        let path = tree.path_at(list[i]).duplicate();
        let ghost raw = path@;
        assert(raw == all[i as int]);
        set.insert(path);
        proof {
            with_path_adds_one(before, raw);
            lemma_holds_push(all, i as int);
        }
        i += 1;
    }
    assert(all.take(list@.len() as int) =~= all);
    set
}

/// Looking through one path more.
proof fn lemma_holds_push(list: Seq<Seq<u8>>, i: int)
    requires
        0 <= i < list.len(),
    ensures
        forall|q: Seq<u8>| #[trigger]
            holds(list.take(i + 1), q) == (holds(list.take(i), q) || same_path(q, list[i])),
{
    let a = list.take(i);
    let b = list.take(i + 1);
    assert forall|q: Seq<u8>| #[trigger]
        holds(b, q) == (holds(a, q) || same_path(q, list[i])) by {
        if holds(a, q) {
            let k = choose|k: int| found_at(a, k, q);
            assert(found_at(b, k, q));
        }
        if same_path(q, list[i]) {
            assert(found_at(b, i, q));
        }
        if holds(b, q) {
            let k = choose|k: int| found_at(b, k, q);
            if k < i {
                assert(found_at(a, k, q));
            }
        }
    }
}

/// True when `rel` lies in one of the directories of the set.
fn under_conflict(set: &PathSet, rel: &UnixPath, Ghost(list): Ghost<Seq<Item>>) -> (under: bool)
    requires
        forall|q: Seq<u8>| #[trigger] holds(set@, q) == holds(paths_of(list), q),
    ensures
        under == lies_under(list, rel@),
{
    let ghost whole = parts(rel@);
    let mut cur = rel.duplicate();
    assert(whole.take(whole.len() as int) =~= whole);
    loop
        invariant
            forall|q: Seq<u8>| #[trigger] holds(set@, q) == holds(paths_of(list), q),
            whole == parts(rel@),
            depth(cur@) <= whole.len(),
            parts(cur@) == whole.take(depth(cur@) as int),
            forall|i: int|
                0 <= i < list.len() && depth((#[trigger] list[i]).path) >= depth(cur@)
                    ==> !is_above(list[i].path, rel@),
        decreases depth(cur@),
    {
        let ghost k = depth(cur@) as int;
        match cur.parent() {
            None => {
                proof {
                    if k > 0 {
                        assert(parts(cur@).last() == whole[k - 1]);
                        root_comes_first(rel@, k - 1);
                    }
                    assert forall|i: int| 0 <= i < list.len() implies !is_above(
                        (#[trigger] list[i]).path,
                        rel@,
                    ) by {
                        if depth(list[i].path) < k {
                            assert(k == 1 && depth(list[i].path) == 0);
                        }
                    }
                }
                return false;
            },
            Some(p) => {
                proof {
                    parent_drops_last_part(cur@);
                }
                assert(parts(p@) =~= whole.take(k - 1));
                if set.contains(&p) {
                    proof {
                        let i = choose|i: int| found_at(paths_of(list), i, p@);
                        assert(parts(list[i].path) == whole.take(k - 1));
                        assert(parts(cur@).last() == whole[k - 1]);
                        assert(is_above(list[i].path, rel@));
                    }
                    return true;
                }
                proof {
                    assert forall|i: int|
                        0 <= i < list.len() && depth((#[trigger] list[i]).path) >= k
                            - 1 implies !is_above(list[i].path, rel@) by {
                        if is_above(list[i].path, rel@) && depth(list[i].path) == k - 1 {
                            assert(found_at(paths_of(list), i, p@));
                            assert(holds(paths_of(list), p@));
                        }
                    }
                }
                cur = p;
            },
        }
    }
}

/// Goes through the target for entries that have to go.
fn find_stale(
    source: &Tree,
    dest: &Tree,
    conflict_set: &PathSet,
    Ghost(list): Ghost<Seq<Item>>,
) -> (out: (Vec<usize>, Vec<usize>))
    requires
        list == conflicts(source@, dest@),
        forall|q: Seq<u8>| #[trigger] holds(conflict_set@, q) == holds(paths_of(list), q),
    ensures
        in_range(out.0@, dest@.len()),
        in_range(out.1@, dest@.len()),
        picked(dest@, out.0@) == stale_files(dest@, source@, dest@),
        picked(dest@, out.1@) == stale_dirs(dest@, source@, dest@),
{
    let ghost src = source@;
    let ghost dst = dest@;
    let ghost pf = |i: Item| is_stale(i, src, dst) && !(i.entry.kind is Dir);
    let ghost pd = |i: Item| is_stale(i, src, dst) && i.entry.kind is Dir;
    let mut files: Vec<usize> = Vec::new();
    let mut dirs: Vec<usize> = Vec::new();
    let n = dest.len();
    let mut i: usize = 0;
    proof {
        reveal(Seq::filter);
        assert(dst.take(0) =~= Seq::<Item>::empty());
        assert(picked(dst, Seq::<usize>::empty()) =~= Seq::<Item>::empty());
    }
    while i < n
        invariant
            src == source@,
            dst == dest@,
            i <= n == dst.len(),
            list == conflicts(src, dst),
            forall|q: Seq<u8>| #[trigger] holds(conflict_set@, q) == holds(paths_of(list), q),
            pf == (|i: Item| is_stale(i, src, dst) && !(i.entry.kind is Dir)),
            pd == (|i: Item| is_stale(i, src, dst) && i.entry.kind is Dir),
            in_range(files@, dst.len()),
            in_range(dirs@, dst.len()),
            picked(dst, files@) == dst.take(i as int).filter(pf),
            picked(dst, dirs@) == dst.take(i as int).filter(pd),
        decreases n - i,
    {
        let rel = dest.path_at(i);
        proof {
            filter_step(dst, i as int, pf);
            filter_step(dst, i as int, pd);
            picked_push(dst, files@, i);
            picked_push(dst, dirs@, i);
        }
        // What the source holds too is either kept or a removed conflict, and
        // what lies under a removed conflict goes with it.
        if source.get(rel).is_none() && !under_conflict(conflict_set, rel, Ghost(list)) {
            match &dest.entry_at(i).kind {
                EntryKind::Dir => {
                    dirs.push(i);
                },
                _ => {
                    files.push(i);
                },
            }
        }
        i += 1;
    }
    assert(dst.take(n as int) =~= dst);
    (files, dirs)
}

/// Adds the directories that directly hold the entries at these positions.
fn touch_parents(set: &mut PathSet, tree: &Tree, list: &Vec<usize>)
    requires
        in_range(list@, tree@.len()),
        ascending(old(set)@),
    ensures
        ascending(final(set)@),
        forall|q: Seq<u8>| #[trigger]
            holds(final(set)@, q) == (holds(old(set)@, q) || holds_child(
                picked(tree@, list@),
                q,
            )),
{
    let ghost all = picked(tree@, list@);
    let ghost start = set@;
    let mut i: usize = 0;
    while i < list.len()
        invariant
            i <= list@.len(),
            in_range(list@, tree@.len()),
            all == picked(tree@, list@),
            ascending(set@),
            forall|q: Seq<u8>| #[trigger]
                holds(set@, q) == (holds(start, q) || holds_child(all.take(i as int), q)),
        decreases list@.len() - i,
    {
        let rel = tree.path_at(list[i]);
        let ghost before = set@;
        let ghost at = i as int;
        assert(all[at].path == rel@);
        proof {
            lemma_child_push(all, at);
        }
        if let Some(parent) = rel.parent() {
            if !parent.is_empty() {
                let ghost raw = parent@;
                set.insert(parent);
                proof {
                    with_path_adds_one(before, raw);
                }
            }
        }
        i += 1;
    }
    assert(all.take(list@.len() as int) =~= all);
}

/// Looking through one entry more.
proof fn lemma_child_push(list: Seq<Item>, i: int)
    requires
        0 <= i < list.len(),
    ensures
        forall|q: Seq<u8>| #[trigger]
            holds_child(list.take(i + 1), q) == (holds_child(list.take(i), q) || is_parent(
                q,
                list[i].path,
            )),
{
    let a = list.take(i);
    let b = list.take(i + 1);
    assert forall|q: Seq<u8>| #[trigger]
        holds_child(b, q) == (holds_child(a, q) || is_parent(q, list[i].path)) by {
        if holds_child(a, q) {
            let k = choose|k: int| 0 <= k < a.len() && is_parent(q, (#[trigger] a[k]).path);
            assert(b[k] == a[k]);
        }
        if is_parent(q, list[i].path) {
            assert(b[i] == list[i]);
        }
        if holds_child(b, q) {
            let k = choose|k: int| 0 <= k < b.len() && is_parent(q, (#[trigger] b[k]).path);
            if k < i {
                assert(a[k] == b[k]);
            }
        }
    }
}

/// Looking through two lists one after the other.
proof fn lemma_child_concat(a: Seq<Item>, b: Seq<Item>, q: Seq<u8>)
    ensures
        holds_child(a + b, q) == (holds_child(a, q) || holds_child(b, q)),
{
    if holds_child(a, q) {
        let k = choose|k: int| 0 <= k < a.len() && is_parent(q, (#[trigger] a[k]).path);
        assert((a + b)[k] == a[k]);
    }
    if holds_child(b, q) {
        let k = choose|k: int| 0 <= k < b.len() && is_parent(q, (#[trigger] b[k]).path);
        assert((a + b)[a.len() + k] == b[k]);
    }
    if holds_child(a + b, q) {
        let k = choose|k: int| 0 <= k < (a + b).len() && is_parent(q, (#[trigger] (a + b)[k]).path);
        if k < a.len() {
            assert(a[k] == (a + b)[k]);
        } else {
            assert(b[k - a.len()] == (a + b)[k]);
        }
    }
}

/// Positions of the directories whose mtime and mode have to be set.
fn find_dir_metas(
    source: &Tree,
    dest: &Tree,
    tol: i64,
    touched: &PathSet,
    Ghost(forced): Ghost<Seq<Seq<u8>>>,
) -> (out: Vec<usize>)
    requires
        plan_fits(source@, dest@, tol, forced),
        forall|q: Seq<u8>| #[trigger]
            holds(touched@, q) == holds_child(changed(source@, dest@, tol, forced), q),
    ensures
        in_range(out@, source@.len()),
        picked(source@, out@) == dir_metas(source@, dest@, tol, forced),
{
    let ghost src = source@;
    let ghost dst = dest@;
    let ghost all = changed(src, dst, tol, forced);
    let ghost p = |i: Item|
        i.entry.kind is Dir && (!dir_in_sync(i.entry, lookup(dst, i.path), tol) || holds_child(
            changed(src, dst, tol, forced),
            i.path,
        ));
    let mut out: Vec<usize> = Vec::new();
    let n = source.len();
    let mut i: usize = 0;
    proof {
        reveal(Seq::filter);
        assert(src.take(0) =~= Seq::<Item>::empty());
        assert(picked(src, Seq::<usize>::empty()) =~= Seq::<Item>::empty());
    }
    while i < n
        invariant
            src == source@,
            dst == dest@,
            i <= n == src.len(),
            plan_fits(src, dst, tol, forced),
            forall|q: Seq<u8>| #[trigger]
                holds(touched@, q) == holds_child(changed(src, dst, tol, forced), q),
            p == (|i: Item|
                i.entry.kind is Dir && (!dir_in_sync(i.entry, lookup(dst, i.path), tol)
                    || holds_child(changed(src, dst, tol, forced), i.path))),
            in_range(out@, src.len()),
            picked(src, out@) == src.take(i as int).filter(p),
        decreases n - i,
    {
        let rel = source.path_at(i);
        let s = source.entry_at(i);
        proof {
            filter_step(src, i as int, p);
            picked_push(src, out@, i);
        }
        match &s.kind {
            EntryKind::Dir => {
                let d = dest.get(rel);
                assert(dest_view(d) == lookup(dst, src[i as int].path));
                if !dir_meta_ok(s, d, tol) || touched.contains(rel) {
                    out.push(i);
                }
            },
            _ => {},
        }
        i += 1;
    }
    assert(src.take(n as int) =~= src);
    out
}

/// The action that takes a step for an entry.
fn render_one(path: &UnixPath, entry: &FileEntry, step: &Step) -> (action: Action)
    requires
        *step is Link ==> entry@.kind is Symlink,
    ensures
        action@ == render(Item { path: path@, entry: entry@ }, *step),
{
    let rel = path.duplicate();
    match step {
        Step::Conflict => Action::RemoveConflict(rel),
        Step::MakeDir => Action::CreateDir(rel),
        Step::Copy => Action::Copy { rel, size: entry.size },
        Step::Link => match &entry.kind {
            EntryKind::Symlink { target } => Action::CreateSymlink {
                rel,
                target: target.duplicate(),
                mtime: entry.mtime,
            },
            _ => {
                assert(false);
                Action::RemoveConflict(rel)
            },
        },
        Step::Mode => Action::SetFileMeta { rel, mode: entry.mode },
        Step::DropFile => Action::DeleteFile(rel),
        Step::DropDir => Action::DeleteDir(rel),
        Step::DirMeta => Action::SetDirMeta { rel, mtime: entry.mtime, mode: entry.mode },
    }
}

/// Appends the actions that take a step for the entries at these positions.
fn append(actions: &mut Vec<Action>, tree: &Tree, list: &Vec<usize>, step: Step)
    requires
        in_range(list@, tree@.len()),
        step is Link ==> forall|i: int|
            0 <= i < list@.len() ==> (#[trigger] picked(tree@, list@)[i]).entry.kind is Symlink,
    ensures
        action_views(final(actions)@) == action_views(old(actions)@) + rendered(
            picked(tree@, list@),
            step,
        ),
{
    let ghost all = rendered(picked(tree@, list@), step);
    let ghost start = action_views(actions@);
    let mut i: usize = 0;
    assert(start + all.take(0) =~= start);
    while i < list.len()
        invariant
            i <= list@.len(),
            in_range(list@, tree@.len()),
            step is Link ==> forall|i: int|
                0 <= i < list@.len() ==> (#[trigger] picked(tree@, list@)[i]).entry.kind is Symlink,
            all == rendered(picked(tree@, list@), step),
            action_views(actions@) == start + all.take(i as int),
        decreases list@.len() - i,
    {
        let k = list[i];
        assert(picked(tree@, list@)[i as int] == tree@[k as int]);
        let action = render_one(tree.path_at(k), tree.entry_at(k), &step);
        let ghost before = action_views(actions@);
        assert(action@ == all[i as int]);
        actions.push(action);
        assert(action_views(actions@) =~= before.push(all[i as int]));
        assert(all.take(i + 1) =~= all.take(i as int).push(all[i as int]));
        assert(start + all.take(i + 1) =~= (start + all.take(i as int)).push(all[i as int]));
        i += 1;
    }
    assert(all.take(list@.len() as int) =~= all);
}

/// A condition that lets through more lets through more items.
proof fn lemma_one_more_passes(
    list: Seq<Item>,
    p: spec_fn(Item) -> bool,
    q: spec_fn(Item) -> bool,
    at: int,
)
    requires
        0 <= at < list.len(),
        !p(list[at]) && q(list[at]),
        forall|i: int| 0 <= i < list.len() && p(#[trigger] list[i]) ==> q(list[i]),
    ensures
        list.filter(p).len() < list.filter(q).len(),
    decreases list.len(),
{
    reveal(Seq::filter);
    let rest = list.drop_last();
    assert(forall|i: int| 0 <= i < rest.len() ==> rest[i] == list[i]);
    if at < rest.len() {
        lemma_one_more_passes(rest, p, q, at);
    } else {
        lemma_no_fewer_pass(rest, p, q);
    }
}

/// A weaker condition lets through no fewer items.
proof fn lemma_no_fewer_pass(
    list: Seq<Item>,
    p: spec_fn(Item) -> bool,
    q: spec_fn(Item) -> bool,
)
    requires
        forall|i: int| 0 <= i < list.len() && p(#[trigger] list[i]) ==> q(list[i]),
    ensures
        list.filter(p).len() <= list.filter(q).len(),
    decreases list.len(),
{
    reveal(Seq::filter);
    if list.len() > 0 {
        let rest = list.drop_last();
        assert(forall|i: int| 0 <= i < rest.len() ==> rest[i] == list[i]);
        lemma_no_fewer_pass(rest, p, q);
    }
}

/// Conditions that exclude each other share the items out.
pub proof fn conditions_share_out(
    list: Seq<Item>,
    p: spec_fn(Item) -> bool,
    q: spec_fn(Item) -> bool,
    r: spec_fn(Item) -> bool,
)
    requires
        forall|x: Item|
            #![trigger p(x)]
            #![trigger q(x)]
            !(p(x) && q(x)) && !(p(x) && r(x)) && !(q(x) && r(x)),
    ensures
        list.filter(p).len() + list.filter(q).len() + list.filter(r).len() <= list.len(),
    decreases list.len(),
{
    reveal(Seq::filter);
    if list.len() > 0 {
        conditions_share_out(list.drop_last(), p, q, r);
    }
}

/// Different paths of a list that all stand in a tree stand in different
/// places there.
proof fn lemma_places_of(tree: Seq<Item>, list: Seq<Item>, n: int)
    requires
        0 <= n <= list.len(),
        ascending(paths_of(list)),
        forall|i: int| 0 <= i < list.len() ==> holds(paths_of(tree), (#[trigger] list[i]).path),
    ensures
        n <= tree.filter(|t: Item| holds(paths_of(list.take(n)), t.path)).len(),
    decreases n,
{
    if n > 0 {
        lemma_places_of(tree, list, n - 1);
        let p = |t: Item| holds(paths_of(list.take(n - 1)), t.path);
        let q = |t: Item| holds(paths_of(list.take(n)), t.path);
        let fewer = paths_of(list.take(n - 1));
        let last = list[n - 1];
        let at = choose|i: int| found_at(paths_of(tree), i, last.path);
        let path = tree[at].path;
        assert(found_at(paths_of(tree), at, last.path));
        assert(found_at(paths_of(list.take(n)), n - 1, path));
        assert(q(tree[at]));
        assert(!p(tree[at])) by {
            if p(tree[at]) {
                let k = choose|k: int| found_at(fewer, k, path);
                assert(found_at(paths_of(list), k, path));
                assert(found_at(paths_of(list), n - 1, path));
                found_once(paths_of(list), k, n - 1, path);
            }
        }
        assert forall|i: int| 0 <= i < tree.len() && p(#[trigger] tree[i]) implies q(tree[i]) by {
            let k = choose|k: int| found_at(fewer, k, tree[i].path);
            assert(found_at(paths_of(list.take(n)), k, tree[i].path));
        }
        lemma_one_more_passes(tree, p, q, at);
    }
}

/// What is chosen from a sorted tree is sorted.
pub proof fn filter_keeps_order(tree: Seq<Item>, p: spec_fn(Item) -> bool)
    requires
        ascending(paths_of(tree)),
    ensures
        ascending(paths_of(tree.filter(p))),
    decreases tree.len(),
{
    reveal(Seq::filter);
    if tree.len() > 0 {
        let rest = tree.drop_last();
        assert(paths_of(rest) =~= paths_of(tree).drop_last());
        filter_keeps_order(rest, p);
        if p(tree.last()) {
            let before = rest.filter(p);
            let after = tree.filter(p);
            let list = paths_of(after);
            filter_members(rest, p);
            assert forall|i: int, j: int|
                #![trigger list[i], list[j]]
                0 <= i < j < list.len() implies path_less(list[i], list[j]) by {
                assert(list[i] == paths_of(before)[i]);
                if j < before.len() {
                    assert(list[j] == paths_of(before)[j]);
                } else {
                    assert(before.contains(before[i]));
                    let k = choose|k: int| 0 <= k < rest.len() && rest[k] == before[i];
                    assert(paths_of(tree)[k] == list[i]);
                    assert(paths_of(tree)[tree.len() - 1] == list[j]);
                }
            }
        }
    }
}

/// Conflicts stand in different places of the target.
pub proof fn conflicts_have_places(src: Seq<Item>, dst: Seq<Item>)
    requires
        ascending(paths_of(src)),
    ensures
        conflicts(src, dst).len() <= dst.filter(
            |t: Item| holds(paths_of(conflicts(src, dst)), t.path),
        ).len(),
{
    let list = conflicts(src, dst);
    let c = |i: Item| blocked(i.entry, lookup(dst, i.path));
    filter_keeps_order(src, c);
    filter_members(src, c);
    assert forall|i: int| 0 <= i < list.len() implies holds(
        paths_of(dst),
        (#[trigger] list[i]).path,
    ) by {
        assert(list.contains(list[i]));
    }
    lemma_places_of(dst, list, list.len() as int);
    assert(list.take(list.len() as int) =~= list);
}

/// No target entry is removed twice: a plan removes at most as many entries as
/// the target has.
pub proof fn removes_each_entry_once(src: Seq<Item>, dst: Seq<Item>)
    requires
        ascending(paths_of(src)),
        ascending(paths_of(dst)),
    ensures
        conflicts(src, dst).len() + stale_files(dst, src, dst).len() + stale_dirs(
            dst,
            src,
            dst,
        ).len() <= dst.len(),
{
    let list = conflicts(src, dst);
    let c = |i: Item| blocked(i.entry, lookup(dst, i.path));
    filter_members(src, c);
    conflicts_have_places(src, dst);
    let p = |t: Item| holds(paths_of(list), t.path);
    let f = |i: Item| is_stale(i, src, dst) && !(i.entry.kind is Dir);
    let d = |i: Item| is_stale(i, src, dst) && i.entry.kind is Dir;
    assert forall|x: Item|
        #![trigger p(x)]
        #![trigger f(x)]
        !(p(x) && f(x)) && !(p(x) && d(x)) && !(f(x) && d(x)) by {
        if p(x) {
            let k = choose|k: int| found_at(paths_of(list), k, x.path);
            assert(list.contains(list[k]));
            let i = choose|i: int| 0 <= i < src.len() && src[i] == list[k];
            assert(found_at(paths_of(src), i, x.path));
            assert(lookup(src, x.path) is Some);
        }
    }
    conditions_share_out(dst, p, f, d);
}

/// The directories that directly hold a changed entry.
fn touched_dirs(
    source: &Tree,
    dest: &Tree,
    sorted: &Sorted,
    stale: &(Vec<usize>, Vec<usize>),
    Ghost(tol): Ghost<i64>,
    Ghost(forced): Ghost<Seq<Seq<u8>>>,
) -> (touched: PathSet)
    requires
        sorted.in_range(source@.len()),
        sorted.sorts(source@, source@, dest@, tol, forced),
        in_range(stale.0@, dest@.len()),
        in_range(stale.1@, dest@.len()),
        picked(dest@, stale.0@) == stale_files(dest@, source@, dest@),
        picked(dest@, stale.1@) == stale_dirs(dest@, source@, dest@),
    ensures
        forall|q: Seq<u8>| #[trigger]
            holds(touched@, q) == holds_child(changed(source@, dest@, tol, forced), q),
{
    let mut touched = PathSet::new();
    assert forall|q: Seq<u8>| !#[trigger] holds(touched@, q) by {}
    touch_parents(&mut touched, source, &sorted.conflicts);
    touch_parents(&mut touched, source, &sorted.mkdirs);
    touch_parents(&mut touched, dest, &stale.0);
    touch_parents(&mut touched, dest, &stale.1);
    touch_parents(&mut touched, source, &sorted.copies);
    touch_parents(&mut touched, source, &sorted.links);
    proof {
        let a = conflicts(source@, dest@);
        let b = new_dirs(source@, dest@);
        let c = stale_files(dest@, source@, dest@);
        let d = stale_dirs(dest@, source@, dest@);
        let e = copies(source@, dest@, tol, forced);
        let f = new_links(source@, dest@, tol);
        assert forall|q: Seq<u8>| #[trigger]
            holds(touched@, q) == holds_child(changed(source@, dest@, tol, forced), q) by {
            lemma_child_concat(a, b, q);
            lemma_child_concat(a + b, c, q);
            lemma_child_concat(a + b + c, d, q);
            lemma_child_concat(a + b + c + d, e, q);
            lemma_child_concat(a + b + c + d + e, f, q);
        }
    }
    touched
}

/// Compares source against dest entries and produces the action list + stats.
/// `mtime_tol` is the permitted tolerance in seconds. Files in `forced` are
/// copied even when they count as unchanged (e.g. because `--checksum` found a
/// mismatch). This makes forced copies run through the same logic as normal
/// ones (statistics, ordering, SetDirMeta for touched directories).
pub fn diff_with_forced(source: &Tree, dest: &Tree, mtime_tol: i64, forced: &PathSet) -> (plan: (
    Vec<Action>,
    Stats,
))
    requires
        plan_fits(source@, dest@, mtime_tol, forced@),
    ensures
        action_views(plan.0@) == planned(source@, dest@, mtime_tol, forced@),
        plan.1 == tally(source@, dest@, mtime_tol, forced@),
{
    proof {
        use_type_invariant(source);
        use_type_invariant(dest);
        source.is_sorted();
        dest.is_sorted();
        removes_each_entry_once(source@, dest@);
    }
    let mut stats = Stats::default();
    let sorted = sort_source(source, dest, mtime_tol, forced, &mut stats);
    // RemoveConflict removes the entire subtree, so descendants must not be
    // deleted on top of that.
    let conflict_set = path_set(source, &sorted.conflicts);
    let stale = find_stale(source, dest, &conflict_set, Ghost(conflicts(source@, dest@)));
    stats.delete_count += stale.0.len() as u64;
    stats.delete_count += stale.1.len() as u64;
    // A change inside a directory changes its mtime, so the metadata has to be
    // set again afterwards.
    let touched = touched_dirs(
        source,
        dest,
        &sorted,
        &stale,
        Ghost(mtime_tol),
        Ghost(forced@),
    );
    let metas = find_dir_metas(source, dest, mtime_tol, &touched, Ghost(forced@));
    let mkdirs = by_depth(source, &sorted.mkdirs, false);
    let del_dirs = by_depth(dest, &stale.1, true);
    let dir_metas = by_depth(source, &metas, true);

    let mut actions: Vec<Action> = Vec::new();
    assert(action_views(actions@) =~= Seq::<ActionView>::empty());
    append(&mut actions, source, &sorted.conflicts, Step::Conflict);
    append(&mut actions, source, &mkdirs, Step::MakeDir);
    append(&mut actions, source, &sorted.copies, Step::Copy);
    proof {
        lemma_links_are_links(source@, dest@, mtime_tol);
    }
    append(&mut actions, source, &sorted.links, Step::Link);
    append(&mut actions, source, &sorted.modes, Step::Mode);
    append(&mut actions, dest, &stale.0, Step::DropFile);
    append(&mut actions, dest, &del_dirs, Step::DropDir);
    append(&mut actions, source, &dir_metas, Step::DirMeta);
    assert(action_views(actions@) =~= planned(source@, dest@, mtime_tol, forced@));
    (actions, stats)
}

proof fn lemma_links_are_links(src: Seq<Item>, dst: Seq<Item>, tol: i64)
    ensures
        forall|i: int|
            0 <= i < new_links(src, dst, tol).len() ==> (#[trigger] new_links(
                src,
                dst,
                tol,
            )[i]).entry.kind is Symlink,
{
    let list = new_links(src, dst, tol);
    filter_members(
        src,
        |i: Item| i.entry.kind is Symlink && !link_in_sync(i.entry, lookup(dst, i.path), tol),
    );
    assert forall|i: int| 0 <= i < list.len() implies (#[trigger] list[i]).entry.kind is Symlink by {
        assert(list.contains(list[i]));
    }
}

/// [`diff_with_forced`] without forced copies.
pub fn diff(source: &Tree, dest: &Tree, mtime_tol: i64) -> (plan: (Vec<Action>, Stats))
    requires
        plan_fits(source@, dest@, mtime_tol, Seq::empty()),
    ensures
        action_views(plan.0@) == planned(source@, dest@, mtime_tol, Seq::empty()),
        plan.1 == tally(source@, dest@, mtime_tol, Seq::empty()),
{
    diff_with_forced(source, dest, mtime_tol, &PathSet::new())
}

/// [`diff_with_forced`], or nothing where the figures of the plan cannot be
/// told: where the bytes to be copied cannot be summed up.
pub fn diff_checked(source: &Tree, dest: &Tree, mtime_tol: i64, forced: &PathSet) -> (plan: Option<
    (Vec<Action>, Stats),
>)
    ensures
        plan is Some <==> plan_fits(source@, dest@, mtime_tol, forced@),
        plan matches Some(p) ==> action_views(p.0@) == planned(
            source@,
            dest@,
            mtime_tol,
            forced@,
        ) && p.1 == tally(source@, dest@, mtime_tol, forced@),
{
    let ghost src = source@;
    let ghost dst = dest@;
    let n = source.len();
    let mut sum: u64 = 0;
    let mut i: usize = 0;
    proof {
        lemma_sort_start(src, dst, mtime_tol, forced@);
    }
    while i < n
        invariant
            src == source@,
            dst == dest@,
            i <= n == src.len(),
            sum == total_size(copies(src.take(i as int), dst, mtime_tol, forced@)),
        decreases n - i,
    {
        let rel = source.path_at(i);
        let s = source.entry_at(i);
        let d = dest.get(rel);
        assert(dest_view(d) == lookup(dst, src[i as int].path));
        let v = judge(s, d, mtime_tol, forced.contains(rel));
        let ghost at = i as int;
        proof {
            lemma_sort_step(src, dst, mtime_tol, forced@, at);
            lemma_total_size_push(copies(src.take(at), dst, mtime_tol, forced@), src[at]);
            lemma_total_size_monotone(src, dst, mtime_tol, forced@, at + 1);
        }
        if v.copy {
            match sum.checked_add(s.size) {
                Some(more) => {
                    sum = more;
                },
                None => {
                    return None;
                },
            }
        }
        i += 1;
    }
    assert(src.take(n as int) =~= src);
    Some(diff_with_forced(source, dest, mtime_tol, forced))
}

/// The files that count as unchanged by size and mtime.
pub open spec fn unchanged_files(src: Seq<Item>, dst: Seq<Item>, tol: i64) -> Seq<Item> {
    src.filter(|i: Item| stays(i.entry, lookup(dst, i.path), tol, false))
}

/// The files that count as unchanged by size and mtime: only these are worth a
/// comparison of their contents.
pub fn checksum_candidates(source: &Tree, dest: &Tree, mtime_tol: i64) -> (list: Vec<UnixPath>)
    ensures
        raws(list@) == paths_of(unchanged_files(source@, dest@, mtime_tol)),
{
    let ghost src = source@;
    let ghost dst = dest@;
    let ghost p = |i: Item| stays(i.entry, lookup(dst, i.path), mtime_tol, false);
    let mut list: Vec<UnixPath> = Vec::new();
    let n = source.len();
    let mut i: usize = 0;
    proof {
        reveal(Seq::filter);
        assert(src.take(0) =~= Seq::<Item>::empty());
        assert(raws(list@) =~= paths_of(src.take(0).filter(p)));
    }
    while i < n
        invariant
            src == source@,
            dst == dest@,
            i <= n == src.len(),
            p == (|i: Item| stays(i.entry, lookup(dst, i.path), mtime_tol, false)),
            raws(list@) == paths_of(src.take(i as int).filter(p)),
        decreases n - i,
    {
        let rel = source.path_at(i);
        let s = source.entry_at(i);
        let d = dest.get(rel);
        assert(dest_view(d) == lookup(dst, src[i as int].path));
        proof {
            filter_step(src, i as int, p);
        }
        if judge(s, d, mtime_tol, false).stays {
            let ghost before = list@;
            let copy = rel.duplicate();
            list.push(copy);
            assert(raws(list@) =~= raws(before).push(copy@));
            assert(paths_of(src.take(i as int).filter(p).push(src[i as int])) =~= paths_of(
                src.take(i as int).filter(p),
            ).push(rel@));
        }
        i += 1;
    }
    assert(src.take(n as int) =~= src);
    list
}

/// The path is one of the candidates whose contents differ.
pub open spec fn differs_at(candidates: Seq<UnixPath>, differs: Seq<bool>, path: Seq<u8>) -> bool {
    exists|i: int|
        #![trigger candidates[i]]
        0 <= i < candidates.len() && differs[i] && same_path(path, candidates[i]@)
}

/// The set of those candidates whose contents differ.
pub fn forced_copies(candidates: &Vec<UnixPath>, differs: &Vec<bool>) -> (forced: PathSet)
    requires
        candidates@.len() == differs@.len(),
    ensures
        ascending(forced@),
        forall|q: Seq<u8>| #[trigger]
            holds(forced@, q) == exists|i: int|
                #![trigger candidates@[i]]
                0 <= i < candidates@.len() && differs@[i] && same_path(q, candidates@[i]@),
        forall|q: Seq<u8>| #[trigger]
            holds(forced@, q) == differs_at(candidates@, differs@, q),
{
    let mut forced = PathSet::new();
    let mut i: usize = 0;
    assert forall|q: Seq<u8>| !#[trigger] holds(forced@, q) by {}
    while i < candidates.len()
        invariant
            i <= candidates@.len() == differs@.len(),
            ascending(forced@),
            forall|q: Seq<u8>| #[trigger]
                holds(forced@, q) == exists|k: int|
                    #![trigger candidates@[k]]
                    0 <= k < i && differs@[k] && same_path(q, candidates@[k]@),
        decreases candidates@.len() - i,
    {
        let ghost before = forced@;
        if differs[i] {
            let path = candidates[i].duplicate();
            proof {
                with_path_adds_one(before, path@);
            }
            forced.insert(path);
        }
        proof {
            assert forall|q: Seq<u8>| #[trigger]
                holds(forced@, q) == exists|k: int|
                    #![trigger candidates@[k]]
                    0 <= k < i + 1 && differs@[k] && same_path(q, candidates@[k]@) by {
                if holds(before, q) {
                    let k = choose|k: int|
                        #![trigger candidates@[k]]
                        0 <= k < i && differs@[k] && same_path(q, candidates@[k]@);
                    assert(same_path(q, candidates@[k]@));
                }
                if differs@[i as int] && same_path(q, candidates@[i as int]@) {
                    assert(holds(forced@, q));
                }
            }
        }
        i += 1;
    }
    forced
}

} // verus!
