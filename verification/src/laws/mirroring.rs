//! What a target looks like once it mirrors its source.

use crate::entry::KindView;
use crate::laws::planning::{alike, is_listed, near};
use crate::mirror::{
    conflicts_are_clear, plan_makes_a_mirror, reflects, run, scanned, Disk, Places,
};
use crate::path::parts;
use crate::plan::{action_views, diff_with_forced, gap, Action, Stats};
use crate::tree::{found_at, holds, lookup, lookup_is_somewhere, PathSet, Tree};
use vstd::prelude::*;

verus! {

/// Times lie as far apart as their difference says, whichever is the later one.
pub proof fn distances_are_differences(a: i64, b: i64, t: int)
    ensures
        gap(a, b) <= t <==> -t <= a - b <= t,
        gap(a, b) == gap(b, a),
{
}

/// Once a plan was carried out, each place of the source has in the target an entry of
/// the same type, with a time that is the same or close enough. A file has the same
/// size and permissions, a directory the same permissions, and a symlink leads to the
/// same place.
pub proof fn carried_out_plans_mirror_each_entry(
    source: &Tree,
    dest: &Tree,
    tol: i64,
    forced: &PathSet,
    plan: (Vec<Action>, Stats),
    from: Disk,
    to: Disk,
    hidden: Places,
    spared: Places,
    i: int,
)
    requires
        call_ensures(diff_with_forced, (source, dest, tol, forced), plan),
        scanned(source@, dest@, from, to, hidden, spared),
        conflicts_are_clear(source@, dest@, to, spared),
        0 <= i < source@.len(),
    ensures
        run(to, from, spared, action_views(plan.0@)) is Some,
        ({
            let disk = run(to, from, spared, action_views(plan.0@))->0;
            let s = source@[i].entry;
            &&& disk(parts(source@[i].path)) matches Some(node)
            &&& alike(s.kind, node.kind)
            &&& node.mtime matches Some(time) && (time == s.mtime || near(s.mtime, time, tol))
            &&& s.kind is File ==> node.size == s.size && node.mode == Some(s.mode)
            &&& s.kind is Dir ==> node.mode == Some(s.mode)
            &&& s.kind matches KindView::Symlink(target) ==> (
            node.kind matches KindView::Symlink(found) && parts(found) == parts(target))
        }),
{
    plan_makes_a_mirror(source@, dest@, tol, forced@, from, to, hidden, spared);
    let disk = run(to, from, spared, action_views(plan.0@))->0;
    assert(reflects(source@[i].entry, disk(parts(source@[i].path)), tol));
}

/// A file of the target holds the contents of the source once a plan was carried out,
/// if it was missing, of another type or size, too far away in time, or if its copy
/// was forced.
pub proof fn changed_files_get_their_contents(
    source: &Tree,
    dest: &Tree,
    tol: i64,
    forced: &PathSet,
    plan: (Vec<Action>, Stats),
    from: Disk,
    to: Disk,
    hidden: Places,
    spared: Places,
    i: int,
)
    requires
        call_ensures(diff_with_forced, (source, dest, tol, forced), plan),
        scanned(source@, dest@, from, to, hidden, spared),
        conflicts_are_clear(source@, dest@, to, spared),
        0 <= i < source@.len(),
        source@[i].entry.kind is File,
        is_listed(forced@, source@[i].path) || forall|j: int|
            0 <= j < dest@.len() && parts((#[trigger] dest@[j]).path) == parts(source@[i].path)
                ==> !(dest@[j].entry.kind is File) || dest@[j].entry.size != source@[i].entry.size
                || !near(source@[i].entry.mtime, dest@[j].entry.mtime, tol),
    ensures
        run(to, from, spared, action_views(plan.0@)) is Some,
        run(to, from, spared, action_views(plan.0@))->0(parts(source@[i].path))->0.data == from(
            parts(source@[i].path),
        )->0.data,
{
    plan_makes_a_mirror(source@, dest@, tol, forced@, from, to, hidden, spared);
    let path = source@[i].path;
    if is_listed(forced@, path) {
        let k = choose|k: int|
            0 <= k < forced@.len() && parts(#[trigger] forced@[k]) == parts(path);
        assert(found_at(forced@, k, path));
        assert(holds(forced@, path));
    } else if lookup(dest@, path) is Some {
        let j = lookup_is_somewhere(dest@, path);
        assert(parts(dest@[j].path) == parts(path));
    }
    assert(source@[i].entry.kind is File);
}

} // verus!
