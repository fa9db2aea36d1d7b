//! What a scan records.

use crate::copy::permission_bits;
use crate::entry::{EntryKind, FileEntry};
use crate::path::{
    depth, parts, same_path, starts_with, strip_drops_prefix_parts, strip_of, UnixPath,
};
use crate::scan::{
    any_lost, below_root, collect, entries_of, entry_of, is_lost, read_entry, read_link_entry,
    reports, EntryRead, LinkRead, MetaRead, RawMeta, Scan, WalkLog,
};
use crate::tree::{last_of, lookup, put_all_keeps_the_last, raws, Tree};
use vstd::prelude::*;

verus! {

/// What is recorded is what was read: directories and files with their time and
/// all twelve permission bits, files with their size. Symlinks need their target
/// first, anything else is special. A path that is gone has vanished, and one
/// that cannot be read is a failure.
pub proof fn entries_are_recorded_as_read(read: MetaRead, out: EntryRead)
    requires
        call_ensures(read_entry, (read,), out),
    ensures
        out is Vanished <==> read is NotFound,
        out is Failed <==> read is Error,
        read matches MetaRead::Found(meta) ==> {
            &&& out is NeedsLink <==> meta.is_symlink
            &&& out is Special <==> !meta.is_symlink && !meta.is_dir && !meta.is_file
            &&& out is Entry <==> !meta.is_symlink && (meta.is_dir || meta.is_file)
            &&& out matches EntryRead::Entry(e) ==> {
                &&& e.kind is Dir <==> meta.is_dir
                &&& e.kind is File <==> !meta.is_dir
                &&& e.mtime == meta.mtime
                &&& e.mode == meta.mode % 0o10000
                &&& e.size == if meta.is_file {
                    meta.len
                } else {
                    0
                }
            }
        },
{
    if let MetaRead::Found(meta) = read {
        let mode = meta.mode;
        assert(mode & 0o7777 == mode % 0o10000) by (bit_vector);
    }
}

/// A symlink is recorded with its exact target, its own time and its permission
/// bits. A link that is gone has vanished, and one that cannot be read is a
/// failure.
pub proof fn links_are_recorded_as_read(meta: RawMeta, link: LinkRead, out: EntryRead)
    requires
        call_ensures(read_link_entry, (meta, link), out),
    ensures
        out is Vanished <==> link is NotFound,
        out is Failed <==> link is Error,
        link matches LinkRead::Target(target) ==> (out matches EntryRead::Entry(e) && {
            &&& e.kind matches EntryKind::Symlink { target: kept } && kept@ == target@
            &&& e.mtime == meta.mtime
            &&& e.mode == meta.mode % 0o10000
            &&& e.size == if meta.is_file {
                meta.len
            } else {
                0
            }
        }),
{
    let mode = meta.mode;
    assert(mode & 0o7777 == mode % 0o10000) by (bit_vector);
    if let LinkRead::Target(target) = link {
        if let EntryRead::Entry(e) = out {
            assert(e@.kind == crate::entry::KindView::Symlink(target@));
        }
    }
}

/// What is recorded of a file or directory are the bits that a copy of it sets,
/// and two paths are recorded with the same mode exactly if all their permission
/// bits agree.
pub proof fn recorded_modes_are_permissions(
    a: RawMeta,
    b: RawMeta,
    x: FileEntry,
    y: FileEntry,
    bits: u32,
)
    requires
        call_ensures(read_entry, (MetaRead::Found(a),), EntryRead::Entry(x)),
        call_ensures(read_entry, (MetaRead::Found(b),), EntryRead::Entry(y)),
        call_ensures(permission_bits, (a.mode,), bits),
    ensures
        x.mode == bits,
        x.mode == y.mode <==> a.mode % 0o10000 == b.mode % 0o10000,
{
    entries_are_recorded_as_read(MetaRead::Found(a), EntryRead::Entry(x));
    entries_are_recorded_as_read(MetaRead::Found(b), EntryRead::Entry(y));
    let mode = a.mode;
    assert(mode & 0o7777 == mode % 0o10000) by (bit_vector);
}

/// A walk notes every path but the root, as it is spelled, and every directory
/// that could not be read, with the error; the latter by its path below the
/// root.
pub proof fn walks_note_what_they_find(
    fresh: WalkLog,
    log: &mut WalkLog,
    root: &UnixPath,
    path: UnixPath,
    read_error: Option<String>,
)
    requires
        call_ensures(WalkLog::new, (), fresh),
        call_ensures(WalkLog::visit, (log, root, path, read_error), ()),
    ensures
        fresh.paths@.len() == 0 && fresh.unreadable@.len() == 0,
        parts(path@) == parts(root@) ==> raws(final(log).paths@) == raws(old(log).paths@),
        parts(path@) != parts(root@) ==> raws(final(log).paths@) == raws(old(log).paths@).push(
            path@,
        ),
        read_error is None ==> reports(final(log).unreadable@) == reports(old(log).unreadable@),
        read_error matches Some(text) ==> {
            let before = reports(old(log).unreadable@);
            let after = reports(final(log).unreadable@);
            &&& after.len() == before.len() + 1
            &&& after.drop_last() == before
            &&& after.last().1 == text@
            &&& starts_with(path@, root@) ==> parts(after.last().0) == parts(path@).skip(
                depth(root@) as int,
            )
            &&& !starts_with(path@, root@) ==> after.last().0 == path@
        },
{
    strip_drops_prefix_parts(path@, root@);
    assert(raws(fresh.paths@).len() == fresh.paths@.len());
    assert(reports(fresh.unreadable@).len() == fresh.unreadable@.len());
    if let Some(text) = read_error {
        let before = reports(old(log).unreadable@);
        assert(before.push((below_root(root@, path@), text@)).drop_last() =~= before);
    }
}

/// The scan of a missing directory holds nothing, and nothing in it is
/// unreadable.
pub proof fn missing_directories_are_empty(scan: Scan)
    requires
        call_ensures(Scan::empty, (), scan),
    ensures
        scan.entries@.len() == 0,
        scan.unreadable@.len() == 0,
{
}

/// No two paths of the list name the same place.
pub open spec fn places_differ(list: Seq<(UnixPath, EntryRead)>) -> bool {
    forall|a: int, b: int|
        #![trigger list[a], list[b]]
        0 <= a < b < list.len() ==> parts(list[a].0@) != parts(list[b].0@)
}

/// What was read of a path is recorded, and looked up, at that path below the root.
/// Nothing is recorded for a path that vanished or is special. There is no tree
/// exactly if some path does not lie below the root, or could not be read.
pub proof fn trees_hold_what_was_read(
    root: &UnixPath,
    list: Vec<(UnixPath, EntryRead)>,
    tree: Option<Tree>,
    i: int,
)
    requires
        call_ensures(collect, (root, list), tree),
        places_differ(list@),
        0 <= i < list@.len(),
    ensures
        !starts_with(list@[i].0@, root@) || list@[i].1 is Failed ==> tree is None,
        tree is None ==> exists|k: int|
            0 <= k < list@.len() && (!starts_with((#[trigger] list@[k]).0@, root@)
                || list@[k].1 is Failed),
        tree matches Some(t) ==> {
            let rel = strip_of(list@[i].0@, root@)->0;
            &&& parts(rel) == parts(list@[i].0@).skip(depth(root@) as int)
            &&& list@[i].1 matches EntryRead::Entry(e) ==> lookup(t@, rel) == Some(e@)
            &&& !(list@[i].1 is Entry) ==> lookup(t@, rel) is None
        },
{
    let all = list@;
    if !starts_with(all[i].0@, root@) || all[i].1 is Failed {
        assert(is_lost(root@, all[i].0@, all[i].1));
        assert(any_lost(root@, all));
    }
    if any_lost(root@, all) {
        let k = choose|k: int|
            0 <= k < all.len() && is_lost(root@, (#[trigger] all[k]).0@, all[k].1);
        assert(!starts_with(all[k].0@, root@) || all[k].1 is Failed);
    }
    if let Some(t) = tree {
        assert(!is_lost(root@, all[i].0@, all[i].1)) by {
            if is_lost(root@, all[i].0@, all[i].1) {
                assert(any_lost(root@, all));
            }
        }
        strip_drops_prefix_parts(all[i].0@, root@);
        put_all_keeps_the_last(entries_of(root@, all));
        lemma_last_of(root@, all, all.len() as int, i);
        assert(all.take(all.len() as int) =~= all);
    }
}

/// The last entry that the first `n` reads give for path `i` is the one that was
/// read for it.
proof fn lemma_last_of(root: Seq<u8>, list: Seq<(UnixPath, EntryRead)>, n: int, i: int)
    requires
        places_differ(list),
        0 <= n <= list.len(),
        0 <= i < list.len(),
        strip_of(list[i].0@, root) is Some,
    ensures
        last_of(entries_of(root, list.take(n)), strip_of(list[i].0@, root)->0) == if i < n {
            match list[i].1 {
                EntryRead::Entry(e) => Some(e@),
                _ => None,
            }
        } else {
            None
        },
    decreases n,
{
    if n > 0 {
        let k = n - 1;
        let part = list.take(n);
        let rest = list.take(k);
        assert(part.drop_last() =~= rest);
        assert(part.last() == list[k]);
        lemma_last_of(root, list, k, i);
        let rel = strip_of(list[i].0@, root)->0;
        let more = entry_of(root, list[k].0@, list[k].1);
        let before = entries_of(root, rest);
        let after = before + more;
        assert(entries_of(root, part) == after);
        if more.len() == 0 {
            assert(after =~= before);
        } else {
            assert(after.drop_last() =~= before);
            let here = strip_of(list[k].0@, root)->0;
            assert(after.last().path == here);
            if k != i {
                assert(!same_path(rel, here)) by {
                    strip_drops_prefix_parts(list[i].0@, root);
                    strip_drops_prefix_parts(list[k].0@, root);
                    let d = depth(root) as int;
                    if parts(rel) == parts(here) {
                        let a = parts(list[i].0@);
                        let b = parts(list[k].0@);
                        assert(a =~= a.take(d) + a.skip(d));
                        assert(b =~= b.take(d) + b.skip(d));
                        assert(a == b);
                    }
                }
            }
        }
    }
}

/// Every entry of the tree comes from a path that was read.
pub proof fn trees_hold_nothing_else(
    root: &UnixPath,
    list: Vec<(UnixPath, EntryRead)>,
    tree: Tree,
    k: int,
)
    requires
        call_ensures(collect, (root, list), Some(tree)),
        places_differ(list@),
        0 <= k < tree@.len(),
    ensures
        exists|i: int|
            0 <= i < list@.len() && strip_of((#[trigger] list@[i]).0@, root@) == Some(
                tree@[k].path,
            ) && list@[i].1 is Entry,
{
    let all = list@;
    let from = entries_of(root@, all);
    put_all_keeps_the_last(from);
    let m = crate::tree::put_all_takes_from_the_list(from, k);
    let i = lemma_source(root@, all, m);
    assert(list@[i].1 is Entry);
}

proof fn lemma_source(root: Seq<u8>, list: Seq<(UnixPath, EntryRead)>, j: int) -> (i: int)
    requires
        0 <= j < entries_of(root, list).len(),
    ensures
        0 <= i < list.len(),
        strip_of(list[i].0@, root) == Some(entries_of(root, list)[j].path),
        list[i].1 is Entry,
    decreases list.len(),
{
    let rest = list.drop_last();
    let n = entries_of(root, rest).len();
    if j < n {
        lemma_source(root, rest, j)
    } else {
        list.len() - 1
    }
}

} // verus!
