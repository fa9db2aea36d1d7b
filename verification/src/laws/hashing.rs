//! What `--checksum` finds.

use crate::digest::{blake3_hash, contents_differ, ContentHash, Digest};
use crate::laws::planning::{entries_are_brought_in_line, is_listed, near};
use crate::path::{parts, UnixPath};
use crate::picks::filter_members;
use crate::plan::{
    action_views, checksum_candidates, differs_at, diff_with_forced, forced_copies, stays,
    unchanged_files, Action, ActionView, Stats,
};
use crate::tree::{
    ascending, found_at, found_once, holds, lookup, lookup_at, lookup_is_somewhere, paths_of, raws,
    Item, PathSet, Tree,
};
use vstd::prelude::*;

verus! {

/// Two hashes are the same exactly if they have the same bytes.
pub proof fn hashes_are_compared_by_their_bytes(a: &Digest, b: &Digest, same: bool)
    requires
        call_ensures(Digest::same, (a, b), same),
    ensures
        same <==> forall|i: int| 0 <= i < 32 ==> a.bytes@[i] == b.bytes@[i],
{
    if forall|i: int| 0 <= i < 32 ==> a.bytes@[i] == b.bytes@[i] {
        assert(a.bytes@ =~= b.bytes@);
    }
}

/// Contents differ exactly if one of them could not be read, or their hashes
/// differ; so it does not matter which of them is the source.
pub proof fn contents_are_compared_by_hash(
    a: Option<Digest>,
    b: Option<Digest>,
    differ: bool,
    swapped: bool,
)
    requires
        call_ensures(contents_differ, (a, b), differ),
        call_ensures(contents_differ, (b, a), swapped),
    ensures
        !differ <==> a is Some && b is Some && a->0.bytes@ == b->0.bytes@,
        swapped == differ,
{
}

/// The hash is that of all pieces taken in, in their order.
pub proof fn hashes_are_of_the_contents(
    fresh: ContentHash,
    hash: &mut ContentHash,
    piece: &[u8],
    done: &ContentHash,
    digest: Digest,
)
    requires
        call_ensures(ContentHash::new, (), fresh),
        call_ensures(ContentHash::update, (hash, piece), ()),
        call_ensures(ContentHash::finish, (done,), digest),
    ensures
        fresh@.len() == 0,
        final(hash)@ == old(hash)@ + piece@,
        digest.bytes@ == blake3_hash(done@),
{
}

/// The files that are compared by their contents are exactly those that look
/// unchanged: there is a file of the same size at the same place in the target,
/// and its time is close enough.
pub proof fn files_that_look_unchanged_are_compared(
    source: &Tree,
    dest: &Tree,
    tol: i64,
    list: Vec<UnixPath>,
    i: int,
)
    requires
        source.wf(),
        dest.wf(),
        call_ensures(checksum_candidates, (source, dest, tol), list),
        0 <= i < source@.len(),
    ensures
        raws(list@).contains(source@[i].path) <==> source@[i].entry.kind is File && exists|j: int|
            0 <= j < dest@.len() && parts((#[trigger] dest@[j]).path) == parts(source@[i].path)
                && dest@[j].entry.kind is File && dest@[j].entry.size == source@[i].entry.size
                && near(source@[i].entry.mtime, dest@[j].entry.mtime, tol),
{
    let src = source@;
    let dst = dest@;
    let s = src[i];
    source.is_sorted();
    dest.is_sorted();
    let p = |i: Item| stays(i.entry, lookup(dst, i.path), tol, false);
    let found = unchanged_files(src, dst, tol);
    filter_members(src, p);
    assert(src.contains(s));
    if raws(list@).contains(s.path) {
        let k = choose|k: int| 0 <= k < raws(list@).len() && raws(list@)[k] == s.path;
        assert(found[k].path == s.path);
        assert(found.contains(found[k]));
        let m = choose|m: int| 0 <= m < src.len() && src[m] == found[k];
        assert(found_at(paths_of(src), m, s.path));
        assert(found_at(paths_of(src), i, s.path));
        found_once(paths_of(src), m, i, s.path);
        let j = lookup_is_somewhere(dst, s.path);
        assert(parts(dst[j].path) == parts(s.path));
    }
    if s.entry.kind is File && exists|j: int|
        0 <= j < dst.len() && parts((#[trigger] dst[j]).path) == parts(s.path)
            && dst[j].entry.kind is File && dst[j].entry.size == s.entry.size && near(
            s.entry.mtime,
            dst[j].entry.mtime,
            tol,
        ) {
        let j = choose|j: int|
            0 <= j < dst.len() && parts((#[trigger] dst[j]).path) == parts(s.path)
                && dst[j].entry.kind is File && dst[j].entry.size == s.entry.size && near(
                s.entry.mtime,
                dst[j].entry.mtime,
                tol,
            );
        lookup_at(dst, j, s.path);
        assert(found.contains(s));
        let k = choose|k: int| 0 <= k < found.len() && found[k] == s;
        assert(paths_of(found)[k] == s.path);
        assert(raws(list@)[k] == s.path);
    }
}

/// A copy is forced exactly for the candidates that differ.
pub proof fn copies_are_forced_where_contents_differ(
    candidates: &Vec<UnixPath>,
    differs: &Vec<bool>,
    forced: PathSet,
    path: Seq<u8>,
)
    requires
        candidates@.len() == differs@.len(),
        call_ensures(forced_copies, (candidates, differs), forced),
    ensures
        is_listed(forced@, path) <==> exists|i: int|
            0 <= i < candidates@.len() && differs@[i] && parts((#[trigger] candidates@[i])@)
                == parts(path),
{
    lemma_listed(forced@, path);
    assert(holds(forced@, path) == differs_at(candidates@, differs@, path));
    if exists|i: int|
        0 <= i < candidates@.len() && differs@[i] && parts((#[trigger] candidates@[i])@) == parts(
            path,
        ) {
        let i = choose|i: int|
            0 <= i < candidates@.len() && differs@[i] && parts((#[trigger] candidates@[i])@)
                == parts(path);
        assert(crate::path::same_path(path, candidates@[i]@));
    }
    if holds(forced@, path) {
        let i = choose|i: int|
            #![trigger candidates@[i]]
            0 <= i < candidates@.len() && differs@[i] && crate::path::same_path(
                path,
                candidates@[i]@,
            );
        assert(parts(candidates@[i]@) == parts(path));
    }
}

proof fn lemma_listed(list: Seq<Seq<u8>>, path: Seq<u8>)
    ensures
        is_listed(list, path) <==> holds(list, path),
{
    if is_listed(list, path) {
        let k = choose|k: int| 0 <= k < list.len() && parts(#[trigger] list[k]) == parts(path);
        assert(found_at(list, k, path));
    }
    if holds(list, path) {
        let k = choose|k: int| found_at(list, k, path);
        assert(parts(list[k]) == parts(path));
    }
}

/// From the two files to the plan: a file that looks unchanged is copied, once
/// its contents were compared, exactly if one of the two could not be read or
/// the hashes of their contents differ.
pub proof fn differing_files_are_copied(
    source: &Tree,
    dest: &Tree,
    tol: i64,
    candidates: Vec<UnixPath>,
    differs: Vec<bool>,
    c: int,
    a: Option<Digest>,
    b: Option<Digest>,
    forced: PathSet,
    plan: (Vec<Action>, Stats),
    i: int,
    j: int,
)
    requires
        source.wf(),
        dest.wf(),
        0 <= i < source@.len(),
        0 <= j < dest@.len(),
        parts(source@[i].path) == parts(dest@[j].path),
        source@[i].entry.kind is File,
        dest@[j].entry.kind is File,
        source@[i].entry.size == dest@[j].entry.size,
        near(source@[i].entry.mtime, dest@[j].entry.mtime, tol),
        call_ensures(checksum_candidates, (source, dest, tol), candidates),
        differs@.len() == candidates@.len(),
        0 <= c < candidates@.len(),
        candidates@[c]@ == source@[i].path,
        call_ensures(contents_differ, (a, b), differs@[c]),
        call_ensures(forced_copies, (&candidates, &differs), forced),
        call_ensures(diff_with_forced, (source, dest, tol, &forced), plan),
    ensures
        action_views(plan.0@).contains(
            ActionView::Copy { rel: source@[i].path, size: source@[i].entry.size },
        ) <==> a is None || b is None || a->0.bytes@ != b->0.bytes@,
{
    let rel = source@[i].path;
    let found = unchanged_files(source@, dest@, tol);
    source.is_sorted();
    dest.is_sorted();
    copies_are_forced_where_contents_differ(&candidates, &differs, forced, rel);
    entries_are_brought_in_line(source, dest, tol, &forced, plan, i, j);
    assert(is_listed(forced@, rel) <==> differs@[c]) by {
        if differs@[c] {
            assert(parts(candidates@[c]@) == parts(rel));
        }
        if is_listed(forced@, rel) {
            let k = choose|k: int|
                0 <= k < candidates@.len() && differs@[k] && parts((#[trigger] candidates@[k])@)
                    == parts(rel);
            lemma_candidates_differ(source, dest, tol, candidates, k, c);
        }
    }
}

/// No two candidates name the same place.
proof fn lemma_candidates_differ(
    source: &Tree,
    dest: &Tree,
    tol: i64,
    candidates: Vec<UnixPath>,
    a: int,
    b: int,
)
    requires
        source.wf(),
        call_ensures(checksum_candidates, (source, dest, tol), candidates),
        0 <= a < candidates@.len(),
        0 <= b < candidates@.len(),
        parts(candidates@[a]@) == parts(candidates@[b]@),
    ensures
        a == b,
{
    let dst = dest@;
    let p = |i: Item| stays(i.entry, lookup(dst, i.path), tol, false);
    source.is_sorted();
    crate::plan::filter_keeps_order(source@, p);
    let list = paths_of(unchanged_files(source@, dst, tol));
    assert(raws(candidates@)[a] == candidates@[a]@);
    assert(raws(candidates@)[b] == candidates@[b]@);
    assert(found_at(list, a, candidates@[b]@));
    assert(found_at(list, b, candidates@[b]@));
    found_once(list, a, b, candidates@[b]@);
}

/// Every file that is compared is one of the source, and they go in the order of the
/// tree.
pub proof fn candidates_come_from_the_source(
    source: &Tree,
    dest: &Tree,
    tol: i64,
    list: Vec<UnixPath>,
    k: int,
)
    requires
        source.wf(),
        call_ensures(checksum_candidates, (source, dest, tol), list),
        0 <= k < list@.len(),
    ensures
        exists|i: int| 0 <= i < source@.len() && (#[trigger] source@[i]).path == list@[k]@,
        ascending(raws(list@)),
{
    let dst = dest@;
    let p = |i: Item| stays(i.entry, lookup(dst, i.path), tol, false);
    let found = unchanged_files(source@, dst, tol);
    source.is_sorted();
    crate::plan::filter_keeps_order(source@, p);
    filter_members(source@, p);
    assert(raws(list@)[k] == list@[k]@);
    assert(raws(list@).len() == list@.len());
    assert(paths_of(found).len() == found.len());
    assert(paths_of(found)[k] == found[k].path);
    assert(found.contains(found[k]));
    let i = choose|i: int| 0 <= i < source@.len() && source@[i] == found[k];
    assert(source@[i].path == list@[k]@);
}

} // verus!
