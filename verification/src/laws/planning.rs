//! What a plan names.
//!
//! The laws go through the entries of the two trees one by one. Two spellings
//! name the same place if they have the same components.

use crate::agreement::{
    actions_run_in_order, bytes_of, count, figures_count_the_actions, files, phase_list, phase_of,
    phase_step,
};
use crate::entry::{EntryKind, FileEntry, KindView};
use crate::path::{depth, parts, path_less};
use crate::picks::{
    deep_first_orders, filter_keeps_different, filter_members, shallow_first_orders,
    sorted_items_differ,
};
use crate::plan::{
    action_views, blocked, changed, conflicts, copies, diff, diff_checked, diff_with_forced,
    dir_in_sync, dir_metas, holds_child, is_above, is_stale, lies_under, link_in_sync, matched,
    new_dirs, new_links, plan_fits, planned, render, rendered, stale_dirs, stale_files, stays,
    times_within, unchanged, Action, ActionView, Stats, Step,
};
use crate::tree::{
    ascending, found_at, found_once, holds, lookup, lookup_at, lookup_is_somewhere, paths_of, Item,
    PathSet, Tree,
};
use vstd::prelude::*;

verus! {

// ---------------------------------------------------------------------------
// One entry against another
// ---------------------------------------------------------------------------

/// Two times are close enough exactly if they lie at most the tolerance apart,
/// whichever of them is the later one.
pub proof fn times_are_compared_by_distance(a: i64, b: i64, tol: i64, within: bool, swapped: bool)
    requires
        call_ensures(times_within, (a, b, tol), within),
        call_ensures(times_within, (b, a, tol), swapped),
    ensures
        within <==> -tol <= a - b <= tol,
        swapped == within,
{
}

/// A file looks unchanged exactly if it has the same size and its time is close
/// enough.
pub proof fn files_look_alike_by_size_and_time(s: &FileEntry, d: &FileEntry, tol: i64, same: bool)
    requires
        call_ensures(unchanged, (s, d, tol), same),
    ensures
        same <==> s.size == d.size && -tol <= s.mtime - d.mtime <= tol,
{
}

/// Two kinds are of the same type if both are files, both directories or both
/// symlinks, whatever these point to.
pub proof fn types_are_compared_by_kind(a: &EntryKind, b: &EntryKind, same: bool)
    requires
        call_ensures(EntryKind::same_type, (a, b), same),
    ensures
        same <==> (a is File && b is File) || (a is Dir && b is Dir) || (a is Symlink
            && b is Symlink),
{
}

/// Both are files, both are directories or both are symlinks.
pub open spec fn alike(a: KindView, b: KindView) -> bool {
    (a is File && b is File) || (a is Dir && b is Dir) || (a is Symlink && b is Symlink)
}

/// The two times lie at most the tolerance apart.
pub open spec fn near(a: i64, b: i64, tol: i64) -> bool {
    -tol <= a - b <= tol
}

/// The path is in the list, in some spelling.
pub open spec fn is_listed(list: Seq<Seq<u8>>, path: Seq<u8>) -> bool {
    exists|k: int| 0 <= k < list.len() && parts(#[trigger] list[k]) == parts(path)
}

/// The tree has an entry at this place.
pub open spec fn is_recorded(tree: Seq<Item>, path: Seq<u8>) -> bool {
    exists|k: int| 0 <= k < tree.len() && parts((#[trigger] tree[k]).path) == parts(path)
}

// ---------------------------------------------------------------------------
// Which actions a plan has
// ---------------------------------------------------------------------------

/// A plan is the same whichever way it is asked for: without forced copies, with
/// them, or with a check of its figures.
pub proof fn plans_agree(
    source: &Tree,
    dest: &Tree,
    tol: i64,
    forced: &PathSet,
    plain: (Vec<Action>, Stats),
    full: (Vec<Action>, Stats),
    checked: Option<(Vec<Action>, Stats)>,
)
    requires
        call_ensures(diff, (source, dest, tol), plain),
        call_ensures(diff_with_forced, (source, dest, tol, forced), full),
        call_ensures(diff_checked, (source, dest, tol, forced), checked),
    ensures
        forced@.len() == 0 ==> action_views(plain.0@) == action_views(full.0@) && plain.1 == full.1,
        checked matches Some(c) ==> action_views(c.0@) == action_views(full.0@) && c.1 == full.1,
{
    if forced@.len() == 0 {
        assert(forced@ =~= Seq::<Seq<u8>>::empty());
    }
}

/// The figures of a plan can be told exactly if the bytes of the files to be
/// copied can be summed up.
pub proof fn plans_fail_for_too_many_bytes_only(
    source: &Tree,
    dest: &Tree,
    tol: i64,
    forced: &PathSet,
    checked: Option<(Vec<Action>, Stats)>,
)
    requires
        source.wf(),
        dest.wf(),
        call_ensures(diff_checked, (source, dest, tol, forced), checked),
    ensures
        checked is Some <==> bytes_of(planned(source@, dest@, tol, forced@)) <= u64::MAX,
{
    source.is_sorted();
    dest.is_sorted();
    crate::agreement::bytes_are_those_of_the_copies(source@, dest@, tol, forced@);
}

/// The bytes of a list of actions are the sizes of its copies.
pub proof fn copies_add_their_bytes(actions: Seq<ActionView>, action: ActionView)
    ensures
        bytes_of(Seq::empty()) == 0,
        bytes_of(actions.push(action)) == bytes_of(actions) + match action {
            ActionView::Copy { size, .. } => size as int,
            _ => 0,
        },
{
    assert(actions.push(action).drop_last() =~= actions);
}

/// Where a list of actions holds one that it was made up of.
proof fn lemma_sum_contains(a: Seq<ActionView>, b: Seq<ActionView>, x: ActionView)
    ensures
        (a + b).contains(x) <==> a.contains(x) || b.contains(x),
{
    if a.contains(x) {
        let i = choose|i: int| 0 <= i < a.len() && a[i] == x;
        assert((a + b)[i] == x);
    }
    if b.contains(x) {
        let i = choose|i: int| 0 <= i < b.len() && b[i] == x;
        assert((a + b)[a.len() + i] == x);
    }
    if (a + b).contains(x) {
        let i = choose|i: int| 0 <= i < (a + b).len() && (a + b)[i] == x;
        if i < a.len() {
            assert(a[i] == x);
        } else {
            assert(b[i - a.len()] == x);
        }
    }
}

proof fn lemma_rendered(list: Seq<Item>, step: Step, x: ActionView)
    ensures
        rendered(list, step).contains(x) <==> exists|t: int|
            0 <= t < list.len() && render(#[trigger] list[t], step) == x,
{
    let all = rendered(list, step);
    if all.contains(x) {
        let t = choose|t: int| 0 <= t < all.len() && all[t] == x;
        assert(render(list[t], step) == x);
    }
    if exists|t: int| 0 <= t < list.len() && render(#[trigger] list[t], step) == x {
        let t = choose|t: int| 0 <= t < list.len() && render(#[trigger] list[t], step) == x;
        assert(all[t] == x);
    }
}

/// An action of a plan was made for an entry of its phase.
proof fn lemma_in_plan(
    src: Seq<Item>,
    dst: Seq<Item>,
    tol: i64,
    forced: Seq<Seq<u8>>,
    x: ActionView,
)
    ensures
        planned(src, dst, tol, forced).contains(x) <==> exists|t: int|
            0 <= t < phase_list(src, dst, tol, forced, phase_of(x)).len() && render(
                #[trigger] phase_list(src, dst, tol, forced, phase_of(x))[t],
                phase_step(phase_of(x)),
            ) == x,
{
    let n = phase_of(x);
    let r0 = rendered(phase_list(src, dst, tol, forced, 0), phase_step(0));
    let r1 = rendered(phase_list(src, dst, tol, forced, 1), phase_step(1));
    let r2 = rendered(phase_list(src, dst, tol, forced, 2), phase_step(2));
    let r3 = rendered(phase_list(src, dst, tol, forced, 3), phase_step(3));
    let r4 = rendered(phase_list(src, dst, tol, forced, 4), phase_step(4));
    let r5 = rendered(phase_list(src, dst, tol, forced, 5), phase_step(5));
    let r6 = rendered(phase_list(src, dst, tol, forced, 6), phase_step(6));
    let r7 = rendered(phase_list(src, dst, tol, forced, 7), phase_step(7));
    lemma_sum_contains(r0, r1, x);
    lemma_sum_contains(r0 + r1, r2, x);
    lemma_sum_contains(r0 + r1 + r2, r3, x);
    lemma_sum_contains(r0 + r1 + r2 + r3, r4, x);
    lemma_sum_contains(r0 + r1 + r2 + r3 + r4, r5, x);
    lemma_sum_contains(r0 + r1 + r2 + r3 + r4 + r5, r6, x);
    lemma_sum_contains(r0 + r1 + r2 + r3 + r4 + r5 + r6, r7, x);
    lemma_rendered(phase_list(src, dst, tol, forced, 0), phase_step(0), x);
    lemma_rendered(phase_list(src, dst, tol, forced, 1), phase_step(1), x);
    lemma_rendered(phase_list(src, dst, tol, forced, 2), phase_step(2), x);
    lemma_rendered(phase_list(src, dst, tol, forced, 3), phase_step(3), x);
    lemma_rendered(phase_list(src, dst, tol, forced, 4), phase_step(4), x);
    lemma_rendered(phase_list(src, dst, tol, forced, 5), phase_step(5), x);
    lemma_rendered(phase_list(src, dst, tol, forced, 6), phase_step(6), x);
    lemma_rendered(phase_list(src, dst, tol, forced, 7), phase_step(7), x);
    assert(planned(src, dst, tol, forced) == r0 + r1 + r2 + r3 + r4 + r5 + r6 + r7);
}

/// The entries that the phases of a plan are about.
proof fn lemma_phase_members(src: Seq<Item>, dst: Seq<Item>, tol: i64, forced: Seq<Seq<u8>>)
    requires
        ascending(paths_of(src)),
        ascending(paths_of(dst)),
    ensures
        forall|x: Item| #[trigger]
            phase_list(src, dst, tol, forced, 0).contains(x) <==> src.contains(x) && blocked(
                x.entry,
                lookup(dst, x.path),
            ),
        forall|x: Item| #[trigger]
            phase_list(src, dst, tol, forced, 1).contains(x) <==> src.contains(x)
                && x.entry.kind is Dir && !matched(x.entry, lookup(dst, x.path)),
        forall|x: Item| #[trigger]
            phase_list(src, dst, tol, forced, 2).contains(x) <==> src.contains(x)
                && x.entry.kind is File && !stays(
                x.entry,
                lookup(dst, x.path),
                tol,
                holds(forced, x.path),
            ),
        forall|x: Item| #[trigger]
            phase_list(src, dst, tol, forced, 3).contains(x) <==> src.contains(x)
                && x.entry.kind is Symlink && !link_in_sync(x.entry, lookup(dst, x.path), tol),
        forall|x: Item| #[trigger]
            phase_list(src, dst, tol, forced, 4).contains(x) <==> src.contains(x) && stays(
                x.entry,
                lookup(dst, x.path),
                tol,
                holds(forced, x.path),
            ) && x.entry.mode != lookup(dst, x.path)->0.mode,
        forall|x: Item| #[trigger]
            phase_list(src, dst, tol, forced, 5).contains(x) <==> dst.contains(x) && is_stale(
                x,
                src,
                dst,
            ) && !(x.entry.kind is Dir),
        forall|x: Item| #[trigger]
            phase_list(src, dst, tol, forced, 6).contains(x) <==> dst.contains(x) && is_stale(
                x,
                src,
                dst,
            ) && x.entry.kind is Dir,
        forall|x: Item| #[trigger]
            phase_list(src, dst, tol, forced, 7).contains(x) <==> src.contains(x)
                && x.entry.kind is Dir && (!dir_in_sync(x.entry, lookup(dst, x.path), tol)
                || holds_child(changed(src, dst, tol, forced), x.path)),
{
    sorted_items_differ(src);
    sorted_items_differ(dst);
    let p1 = |i: Item| i.entry.kind is Dir && !matched(i.entry, lookup(dst, i.path));
    let p6 = |i: Item| is_stale(i, src, dst) && i.entry.kind is Dir;
    let p7 = |i: Item|
        i.entry.kind is Dir && (!dir_in_sync(i.entry, lookup(dst, i.path), tol) || holds_child(
            changed(src, dst, tol, forced),
            i.path,
        ));
    filter_keeps_different(src, p1);
    filter_keeps_different(dst, p6);
    filter_keeps_different(src, p7);
    shallow_first_orders(new_dirs(src, dst));
    deep_first_orders(stale_dirs(dst, src, dst));
    deep_first_orders(dir_metas(src, dst, tol, forced));
    filter_members(src, |i: Item| blocked(i.entry, lookup(dst, i.path)));
    filter_members(src, p1);
    filter_members(
        src,
        |i: Item|
            i.entry.kind is File && !stays(
                i.entry,
                lookup(dst, i.path),
                tol,
                holds(forced, i.path),
            ),
    );
    filter_members(
        src,
        |i: Item| i.entry.kind is Symlink && !link_in_sync(i.entry, lookup(dst, i.path), tol),
    );
    filter_members(
        src,
        |i: Item|
            stays(i.entry, lookup(dst, i.path), tol, holds(forced, i.path)) && i.entry.mode
                != lookup(dst, i.path)->0.mode,
    );
    filter_members(dst, |i: Item| is_stale(i, src, dst) && !(i.entry.kind is Dir));
    filter_members(dst, p6);
    filter_members(src, p7);
}


/// The only entry of a sorted tree at a place.
proof fn lemma_one_entry(tree: Seq<Item>, a: int, b: Item)
    requires
        ascending(paths_of(tree)),
        0 <= a < tree.len(),
        tree.contains(b),
        parts(tree[a].path) == parts(b.path),
    ensures
        tree[a] == b,
{
    let k = choose|k: int| 0 <= k < tree.len() && tree[k] == b;
    assert(found_at(paths_of(tree), a, b.path));
    assert(found_at(paths_of(tree), k, b.path));
    found_once(paths_of(tree), a, k, b.path);
}

/// A plan has the action of a phase for an entry exactly if the phase is about
/// that entry.
proof fn lemma_planned_for(
    src: Seq<Item>,
    dst: Seq<Item>,
    tol: i64,
    forced: Seq<Seq<u8>>,
    n: int,
    tree: Seq<Item>,
    i: int,
)
    requires
        ascending(paths_of(src)),
        ascending(paths_of(dst)),
        0 <= n < 8,
        tree == if n == 5 || n == 6 {
            dst
        } else {
            src
        },
        0 <= i < tree.len(),
    ensures
        planned(src, dst, tol, forced).contains(render(tree[i], phase_step(n))) <==> phase_list(
            src,
            dst,
            tol,
            forced,
            n,
        ).contains(tree[i]),
{
    let list = phase_list(src, dst, tol, forced, n);
    let x = render(tree[i], phase_step(n));
    assert(phase_of(x) == n);
    lemma_in_plan(src, dst, tol, forced, x);
    lemma_phase_members(src, dst, tol, forced);
    if exists|t: int| 0 <= t < list.len() && render(#[trigger] list[t], phase_step(n)) == x {
        let t = choose|t: int| 0 <= t < list.len() && render(#[trigger] list[t], phase_step(n)) == x;
        assert(list.contains(list[t]));
        assert(tree.contains(list[t]));
        lemma_one_entry(tree, i, list[t]);
    }
    if list.contains(tree[i]) {
        let t = choose|t: int| 0 <= t < list.len() && list[t] == tree[i];
        assert(render(list[t], phase_step(n)) == x);
    }
}

/// An entry at the same place as one of the source: the one is removed if it is
/// of another type. A file is copied unless it is of the same type and size, its
/// time is close enough and no copy is forced; otherwise its permissions are
/// set, if they differ. A directory is created, and a symlink made afresh,
/// unless it is in place; a directory whose time or permissions are not in place
/// gets them. An entry that the source has too is not deleted.
pub proof fn entries_are_brought_in_line(
    source: &Tree,
    dest: &Tree,
    tol: i64,
    forced: &PathSet,
    plan: (Vec<Action>, Stats),
    i: int,
    j: int,
)
    requires
        source.wf(),
        dest.wf(),
        call_ensures(diff_with_forced, (source, dest, tol, forced), plan),
        0 <= i < source@.len(),
        0 <= j < dest@.len(),
        parts(source@[i].path) == parts(dest@[j].path),
    ensures
        ({
            let actions = action_views(plan.0@);
            let rel = source@[i].path;
            let s = source@[i].entry;
            let d = dest@[j].entry;
            let close = near(s.mtime, d.mtime, tol);
            let fresh = alike(s.kind, d.kind) && s.size == d.size && close && !is_listed(
                forced@,
                rel,
            );
            &&& actions.contains(ActionView::RemoveConflict(rel)) <==> !alike(s.kind, d.kind)
            &&& s.kind is File ==> (actions.contains(ActionView::Copy { rel, size: s.size })
                <==> !fresh)
            &&& s.kind is File ==> (actions.contains(
                ActionView::SetFileMeta { rel, mode: s.mode },
            ) <==> fresh && s.mode != d.mode)
            &&& s.kind is Dir ==> (actions.contains(ActionView::CreateDir(rel)) <==> !alike(
                s.kind,
                d.kind,
            ))
            &&& s.kind is Dir && (!alike(s.kind, d.kind) || !close || s.mode != d.mode)
                ==> actions.contains(
                ActionView::SetDirMeta { rel, mtime: s.mtime, mode: s.mode },
            )
            &&& s.kind matches KindView::Symlink(target) ==> (actions.contains(
                ActionView::CreateSymlink { rel, target, mtime: s.mtime },
            ) <==> !(d.kind matches KindView::Symlink(other) && parts(other) == parts(target)
                && close))
            &&& !actions.contains(ActionView::DeleteFile(dest@[j].path))
            &&& !actions.contains(ActionView::DeleteDir(dest@[j].path))
        }),
{
    let src = source@;
    let dst = dest@;
    source.is_sorted();
    dest.is_sorted();
    lookup_at(dst, j, src[i].path);
    lookup_at(src, i, dst[j].path);
    lemma_phase_members(src, dst, tol, forced@);
    assert(src.contains(src[i]));
    assert(dst.contains(dst[j]));
    assert(is_listed(forced@, src[i].path) <==> holds(forced@, src[i].path)) by {
        if is_listed(forced@, src[i].path) {
            let k = choose|k: int|
                0 <= k < forced@.len() && parts(#[trigger] forced@[k]) == parts(src[i].path);
            assert(found_at(forced@, k, src[i].path));
        }
        if holds(forced@, src[i].path) {
            let k = choose|k: int| found_at(forced@, k, src[i].path);
            assert(parts(forced@[k]) == parts(src[i].path));
        }
    }
    lemma_planned_for(src, dst, tol, forced@, 0, src, i);
    lemma_planned_for(src, dst, tol, forced@, 1, src, i);
    lemma_planned_for(src, dst, tol, forced@, 2, src, i);
    lemma_planned_for(src, dst, tol, forced@, 3, src, i);
    lemma_planned_for(src, dst, tol, forced@, 4, src, i);
    lemma_planned_for(src, dst, tol, forced@, 5, dst, j);
    lemma_planned_for(src, dst, tol, forced@, 6, dst, j);
    lemma_planned_for(src, dst, tol, forced@, 7, src, i);
}

/// An entry of the source that the target lacks is created: a file is copied, a
/// directory made and given its metadata, a symlink made. Nothing is in its way.
pub proof fn missing_entries_are_created(
    source: &Tree,
    dest: &Tree,
    tol: i64,
    forced: &PathSet,
    plan: (Vec<Action>, Stats),
    i: int,
)
    requires
        source.wf(),
        dest.wf(),
        call_ensures(diff_with_forced, (source, dest, tol, forced), plan),
        0 <= i < source@.len(),
        !is_recorded(dest@, source@[i].path),
    ensures
        ({
            let actions = action_views(plan.0@);
            let rel = source@[i].path;
            let s = source@[i].entry;
            &&& !actions.contains(ActionView::RemoveConflict(rel))
            &&& s.kind is File ==> actions.contains(ActionView::Copy { rel, size: s.size })
            &&& s.kind is File ==> !actions.contains(ActionView::SetFileMeta { rel, mode: s.mode })
            &&& s.kind is Dir ==> actions.contains(ActionView::CreateDir(rel))
            &&& s.kind is Dir ==> actions.contains(
                ActionView::SetDirMeta { rel, mtime: s.mtime, mode: s.mode },
            )
            &&& s.kind matches KindView::Symlink(target) ==> actions.contains(
                ActionView::CreateSymlink { rel, target, mtime: s.mtime },
            )
        }),
{
    let src = source@;
    let dst = dest@;
    source.is_sorted();
    dest.is_sorted();
    if lookup(dst, src[i].path) is Some {
        let k = lookup_is_somewhere(dst, src[i].path);
        assert(parts(dst[k].path) == parts(src[i].path));
    }
    lemma_phase_members(src, dst, tol, forced@);
    assert(src.contains(src[i]));
    lemma_planned_for(src, dst, tol, forced@, 0, src, i);
    lemma_planned_for(src, dst, tol, forced@, 1, src, i);
    lemma_planned_for(src, dst, tol, forced@, 2, src, i);
    lemma_planned_for(src, dst, tol, forced@, 3, src, i);
    lemma_planned_for(src, dst, tol, forced@, 4, src, i);
    lemma_planned_for(src, dst, tol, forced@, 7, src, i);
}

/// The place lies in an entry of the target that is in the way of a source entry
/// of another type.
pub open spec fn goes_with_a_conflict(src: Seq<Item>, dst: Seq<Item>, path: Seq<u8>) -> bool {
    exists|i: int, j: int|
        0 <= i < src.len() && 0 <= j < dst.len() && parts((#[trigger] src[i]).path) == parts(
            (#[trigger] dst[j]).path,
        ) && !alike(src[i].entry.kind, dst[j].entry.kind) && is_above(src[i].path, path)
}

/// An entry of the target that the source lacks is deleted, a directory as one and
/// all else as a file, unless it goes with a removed conflict anyway.
pub proof fn extraneous_entries_are_deleted(
    source: &Tree,
    dest: &Tree,
    tol: i64,
    forced: &PathSet,
    plan: (Vec<Action>, Stats),
    j: int,
)
    requires
        source.wf(),
        dest.wf(),
        call_ensures(diff_with_forced, (source, dest, tol, forced), plan),
        0 <= j < dest@.len(),
        !is_recorded(source@, dest@[j].path),
    ensures
        ({
            let actions = action_views(plan.0@);
            let rel = dest@[j].path;
            let d = dest@[j].entry;
            let free = !goes_with_a_conflict(source@, dest@, rel);
            &&& actions.contains(ActionView::DeleteFile(rel)) <==> free && !(d.kind is Dir)
            &&& actions.contains(ActionView::DeleteDir(rel)) <==> free && d.kind is Dir
        }),
{
    let src = source@;
    let dst = dest@;
    let rel = dst[j].path;
    source.is_sorted();
    dest.is_sorted();
    if lookup(src, rel) is Some {
        let k = lookup_is_somewhere(src, rel);
        assert(parts(src[k].path) == parts(rel));
    }
    lemma_phase_members(src, dst, tol, forced@);
    assert(dst.contains(dst[j]));
    lemma_planned_for(src, dst, tol, forced@, 5, dst, j);
    lemma_planned_for(src, dst, tol, forced@, 6, dst, j);
    let list = conflicts(src, dst);
    assert(phase_list(src, dst, tol, forced@, 0) == list);
    assert(lies_under(list, rel) <==> goes_with_a_conflict(src, dst, rel)) by {
        if lies_under(list, rel) {
            let t = choose|t: int| 0 <= t < list.len() && is_above((#[trigger] list[t]).path, rel);
            assert(list.contains(list[t]));
            let i = choose|i: int| 0 <= i < src.len() && src[i] == list[t];
            let k = lookup_is_somewhere(dst, src[i].path);
            assert(parts(src[i].path) == parts(dst[k].path) && !alike(
                src[i].entry.kind,
                dst[k].entry.kind,
            ));
        }
        if goes_with_a_conflict(src, dst, rel) {
            let (i, k) = choose|i: int, k: int|
                0 <= i < src.len() && 0 <= k < dst.len() && parts((#[trigger] src[i]).path)
                    == parts((#[trigger] dst[k]).path) && !alike(
                    src[i].entry.kind,
                    dst[k].entry.kind,
                ) && is_above(src[i].path, rel);
            lookup_at(dst, k, src[i].path);
            assert(src.contains(src[i]));
            assert(list.contains(src[i]));
            let t = choose|t: int| 0 <= t < list.len() && list[t] == src[i];
            assert(is_above(list[t].path, rel));
        }
    }
}

/// A place lies in another one exactly if its components start with those of the
/// other one and go on behind them.
pub proof fn what_lies_in_a_place(above: Seq<u8>, path: Seq<u8>)
    requires
        depth(above) > 0,
    ensures
        is_above(above, path) <==> depth(above) < depth(path) && parts(path).take(
            depth(above) as int,
        ) == parts(above),
{
}

/// Every action of a plan is made for an entry, with the figures of that entry:
/// deletions for one of the target, all others for one of the source.
pub proof fn actions_carry_what_was_recorded(
    source: &Tree,
    dest: &Tree,
    tol: i64,
    forced: &PathSet,
    plan: (Vec<Action>, Stats),
    k: int,
)
    requires
        source.wf(),
        dest.wf(),
        call_ensures(diff_with_forced, (source, dest, tol, forced), plan),
        0 <= k < plan.0@.len(),
    ensures
        match action_views(plan.0@)[k] {
            ActionView::RemoveConflict(rel) => exists|i: int|
                0 <= i < source@.len() && (#[trigger] source@[i]).path == rel && is_recorded(
                    dest@,
                    rel,
                ),
            ActionView::CreateDir(rel) => exists|i: int|
                0 <= i < source@.len() && (#[trigger] source@[i]).path == rel
                    && source@[i].entry.kind is Dir,
            ActionView::Copy { rel, size } => exists|i: int|
                0 <= i < source@.len() && (#[trigger] source@[i]).path == rel
                    && source@[i].entry.kind is File && source@[i].entry.size == size,
            ActionView::CreateSymlink { rel, target, mtime } => exists|i: int|
                0 <= i < source@.len() && (#[trigger] source@[i]).path == rel
                    && source@[i].entry.kind == KindView::Symlink(target)
                    && source@[i].entry.mtime == mtime,
            ActionView::SetFileMeta { rel, mode } => exists|i: int|
                0 <= i < source@.len() && (#[trigger] source@[i]).path == rel
                    && source@[i].entry.kind is File && source@[i].entry.mode == mode,
            ActionView::SetDirMeta { rel, mtime, mode } => exists|i: int|
                0 <= i < source@.len() && (#[trigger] source@[i]).path == rel
                    && source@[i].entry.kind is Dir && source@[i].entry.mtime == mtime
                    && source@[i].entry.mode == mode,
            ActionView::DeleteFile(rel) => exists|j: int|
                0 <= j < dest@.len() && (#[trigger] dest@[j]).path == rel
                    && !(dest@[j].entry.kind is Dir) && !is_recorded(source@, rel),
            ActionView::DeleteDir(rel) => exists|j: int|
                0 <= j < dest@.len() && (#[trigger] dest@[j]).path == rel
                    && dest@[j].entry.kind is Dir && !is_recorded(source@, rel),
        },
{
    let src = source@;
    let dst = dest@;
    let x = action_views(plan.0@)[k];
    let n = phase_of(x);
    source.is_sorted();
    dest.is_sorted();
    assert(planned(src, dst, tol, forced@).contains(x));
    lemma_in_plan(src, dst, tol, forced@, x);
    lemma_phase_members(src, dst, tol, forced@);
    let list = phase_list(src, dst, tol, forced@, n);
    let t = choose|t: int| 0 <= t < list.len() && render(#[trigger] list[t], phase_step(n)) == x;
    assert(list.contains(list[t]));
    let tree = if n == 5 || n == 6 {
        dst
    } else {
        src
    };
    assert(tree.contains(list[t]));
    let i = choose|i: int| 0 <= i < tree.len() && tree[i] == list[t];
    if n == 0 {
        let j = lookup_is_somewhere(dst, src[i].path);
        assert(parts(dst[j].path) == parts(src[i].path));
    } else if n == 5 || n == 6 {
        if is_recorded(src, dst[i].path) {
            let m = choose|m: int|
                0 <= m < src.len() && parts((#[trigger] src[m]).path) == parts(dst[i].path);
            lookup_at(src, m, dst[i].path);
        }
    }
}

/// The action creates, replaces or removes what stands at `path`.
pub open spec fn changes_entry(action: ActionView, path: Seq<u8>) -> bool {
    match action {
        ActionView::RemoveConflict(rel) => rel == path,
        ActionView::CreateDir(rel) => rel == path,
        ActionView::Copy { rel, .. } => rel == path,
        ActionView::CreateSymlink { rel, .. } => rel == path,
        ActionView::DeleteFile(rel) => rel == path,
        ActionView::DeleteDir(rel) => rel == path,
        ActionView::SetFileMeta { .. } => false,
        ActionView::SetDirMeta { .. } => false,
    }
}

/// Some action changes an entry that stands directly in `dir`.
pub open spec fn changes_inside(actions: Seq<ActionView>, dir: Seq<u8>) -> bool {
    exists|x: ActionView, path: Seq<u8>|
        #![trigger actions.contains(x), changes_entry(x, path)]
        actions.contains(x) && changes_entry(x, path) && depth(path) > 0 && parts(
            path,
        ).drop_last() == parts(dir)
}

/// The metadata of a directory that is in place is set exactly if something
/// directly in it changes: that touches its mtime.
pub proof fn changes_inside_are_made_up_for(
    source: &Tree,
    dest: &Tree,
    tol: i64,
    forced: &PathSet,
    plan: (Vec<Action>, Stats),
    i: int,
    j: int,
)
    requires
        source.wf(),
        dest.wf(),
        call_ensures(diff_with_forced, (source, dest, tol, forced), plan),
        0 <= i < source@.len(),
        0 <= j < dest@.len(),
        parts(source@[i].path) == parts(dest@[j].path),
        depth(source@[i].path) > 0,
        source@[i].entry.kind is Dir,
        dest@[j].entry.kind is Dir,
        near(source@[i].entry.mtime, dest@[j].entry.mtime, tol),
        source@[i].entry.mode == dest@[j].entry.mode,
    ensures
        ({
            let actions = action_views(plan.0@);
            let s = source@[i];
            actions.contains(
                ActionView::SetDirMeta {
                    rel: s.path,
                    mtime: s.entry.mtime,
                    mode: s.entry.mode,
                },
            ) <==> changes_inside(actions, s.path)
        }),
{
    let src = source@;
    let dst = dest@;
    let actions = action_views(plan.0@);
    let rel = src[i].path;
    source.is_sorted();
    dest.is_sorted();
    lookup_at(dst, j, rel);
    lemma_phase_members(src, dst, tol, forced@);
    assert(src.contains(src[i]));
    lemma_planned_for(src, dst, tol, forced@, 7, src, i);
    let list = changed(src, dst, tol, forced@);
    assert(holds_child(list, rel) <==> changes_inside(actions, rel)) by {
        if holds_child(list, rel) {
            let t = choose|t: int|
                0 <= t < list.len() && crate::plan::is_parent(rel, (#[trigger] list[t]).path);
            lemma_changed_is_planned(src, dst, tol, forced@, list[t]);
            crate::path::parent_drops_last_part(list[t].path);
            let x = choose|x: ActionView| #[trigger]
                planned(src, dst, tol, forced@).contains(x) && changes_entry(x, list[t].path);
            assert(actions.contains(x) && changes_entry(x, list[t].path));
        }
        if changes_inside(actions, rel) {
            let (x, path) = choose|x: ActionView, path: Seq<u8>|
                #![trigger actions.contains(x), changes_entry(x, path)]
                actions.contains(x) && changes_entry(x, path) && depth(path) > 0 && parts(
                    path,
                ).drop_last() == parts(rel);
            lemma_planned_is_changed(src, dst, tol, forced@, x, path);
            let t = choose|t: int| 0 <= t < list.len() && (#[trigger] list[t]).path == path;
            lemma_is_parent(rel, path);
            assert(crate::plan::is_parent(rel, list[t].path));
        }
    }
}

proof fn lemma_is_parent(dir: Seq<u8>, path: Seq<u8>)
    requires
        depth(dir) > 0,
        depth(path) > 0,
        parts(path).drop_last() == parts(dir),
    ensures
        crate::plan::is_parent(dir, path),
{
    let n = depth(path) as int;
    if parts(path)[n - 1] == crate::path::PartView::Root {
        crate::path::root_comes_first(path, n - 1);
    }
    crate::path::parent_drops_last_part(path);
    crate::path::empty_path_has_no_parts();
    let up = crate::path::parent_of(path)->0;
    if up.len() == 0 {
        assert(up =~= Seq::<u8>::empty());
    }
}

/// The lists that make up the changes of a plan.
proof fn lemma_changed(
    src: Seq<Item>,
    dst: Seq<Item>,
    tol: i64,
    forced: Seq<Seq<u8>>,
    item: Item,
)
    ensures
        changed(src, dst, tol, forced).contains(item) <==> conflicts(src, dst).contains(item)
            || new_dirs(src, dst).contains(item) || stale_files(dst, src, dst).contains(item)
            || stale_dirs(dst, src, dst).contains(item) || copies(src, dst, tol, forced).contains(
            item,
        ) || new_links(src, dst, tol).contains(item),
{
    let a = conflicts(src, dst);
    let b = new_dirs(src, dst);
    let c = stale_files(dst, src, dst);
    let d = stale_dirs(dst, src, dst);
    let e = copies(src, dst, tol, forced);
    let f = new_links(src, dst, tol);
    lemma_items_sum(a, b, item);
    lemma_items_sum(a + b, c, item);
    lemma_items_sum(a + b + c, d, item);
    lemma_items_sum(a + b + c + d, e, item);
    lemma_items_sum(a + b + c + d + e, f, item);
}

proof fn lemma_items_sum(a: Seq<Item>, b: Seq<Item>, x: Item)
    ensures
        (a + b).contains(x) <==> a.contains(x) || b.contains(x),
{
    if a.contains(x) {
        let i = choose|i: int| 0 <= i < a.len() && a[i] == x;
        assert((a + b)[i] == x);
    }
    if b.contains(x) {
        let i = choose|i: int| 0 <= i < b.len() && b[i] == x;
        assert((a + b)[a.len() + i] == x);
    }
    if (a + b).contains(x) {
        let i = choose|i: int| 0 <= i < (a + b).len() && (a + b)[i] == x;
        if i < a.len() {
            assert(a[i] == x);
        } else {
            assert(b[i - a.len()] == x);
        }
    }
}

proof fn lemma_changed_is_planned(
    src: Seq<Item>,
    dst: Seq<Item>,
    tol: i64,
    forced: Seq<Seq<u8>>,
    item: Item,
)
    requires
        ascending(paths_of(src)),
        ascending(paths_of(dst)),
        changed(src, dst, tol, forced).contains(item),
    ensures
        exists|x: ActionView| #[trigger]
            planned(src, dst, tol, forced).contains(x) && changes_entry(x, item.path),
{
    lemma_changed(src, dst, tol, forced, item);
    lemma_phase_members(src, dst, tol, forced);
    let n: int = if phase_list(src, dst, tol, forced, 0).contains(item) {
        0
    } else if phase_list(src, dst, tol, forced, 1).contains(item) {
        1
    } else if phase_list(src, dst, tol, forced, 5).contains(item) {
        5
    } else if phase_list(src, dst, tol, forced, 6).contains(item) {
        6
    } else if phase_list(src, dst, tol, forced, 2).contains(item) {
        2
    } else {
        3
    };
    sorted_items_differ(src);
    sorted_items_differ(dst);
    filter_keeps_different(
        src,
        |i: Item| i.entry.kind is Dir && !matched(i.entry, lookup(dst, i.path)),
    );
    filter_keeps_different(dst, |i: Item| is_stale(i, src, dst) && i.entry.kind is Dir);
    shallow_first_orders(new_dirs(src, dst));
    deep_first_orders(stale_dirs(dst, src, dst));
    let list = phase_list(src, dst, tol, forced, n);
    assert(list.contains(item));
    let t = choose|t: int| 0 <= t < list.len() && list[t] == item;
    let x = render(item, phase_step(n));
    assert(phase_of(x) == n);
    lemma_in_plan(src, dst, tol, forced, x);
    assert(render(list[t], phase_step(n)) == x);
    assert(planned(src, dst, tol, forced).contains(x) && changes_entry(x, item.path));
}

proof fn lemma_planned_is_changed(
    src: Seq<Item>,
    dst: Seq<Item>,
    tol: i64,
    forced: Seq<Seq<u8>>,
    x: ActionView,
    path: Seq<u8>,
)
    requires
        ascending(paths_of(src)),
        ascending(paths_of(dst)),
        planned(src, dst, tol, forced).contains(x),
        changes_entry(x, path),
    ensures
        exists|t: int|
            0 <= t < changed(src, dst, tol, forced).len() && (#[trigger] changed(
                src,
                dst,
                tol,
                forced,
            )[t]).path == path,
{
    let n = phase_of(x);
    let list = phase_list(src, dst, tol, forced, n);
    lemma_in_plan(src, dst, tol, forced, x);
    let t = choose|t: int| 0 <= t < list.len() && render(#[trigger] list[t], phase_step(n)) == x;
    let item = list[t];
    assert(list.contains(item));
    sorted_items_differ(src);
    sorted_items_differ(dst);
    filter_keeps_different(
        src,
        |i: Item| i.entry.kind is Dir && !matched(i.entry, lookup(dst, i.path)),
    );
    filter_keeps_different(dst, |i: Item| is_stale(i, src, dst) && i.entry.kind is Dir);
    shallow_first_orders(new_dirs(src, dst));
    deep_first_orders(stale_dirs(dst, src, dst));
    lemma_changed(src, dst, tol, forced, item);
    let all = changed(src, dst, tol, forced);
    let m = choose|m: int| 0 <= m < all.len() && all[m] == item;
    assert(all[m].path == path);
}

// ---------------------------------------------------------------------------
// Order and figures
// ---------------------------------------------------------------------------

/// The path of an action.
pub open spec fn path_of(action: ActionView) -> Seq<u8> {
    match action {
        ActionView::RemoveConflict(rel) => rel,
        ActionView::CreateDir(rel) => rel,
        ActionView::Copy { rel, .. } => rel,
        ActionView::CreateSymlink { rel, .. } => rel,
        ActionView::SetFileMeta { rel, .. } => rel,
        ActionView::DeleteFile(rel) => rel,
        ActionView::DeleteDir(rel) => rel,
        ActionView::SetDirMeta { rel, .. } => rel,
    }
}

/// Conflicts are removed before anything else is done. Directories are created
/// before anything is copied or linked, permissions are set after that, and
/// deletions come later still. The metadata of directories is set at the very
/// end. A directory is created before those in it, and deleted or given its
/// metadata after them. No two actions of a kind name the same place, and apart
/// from depth those of a kind go in the order of their paths.
pub proof fn plans_are_in_order(
    source: &Tree,
    dest: &Tree,
    tol: i64,
    forced: &PathSet,
    plan: (Vec<Action>, Stats),
    k: int,
    m: int,
)
    requires
        source.wf(),
        dest.wf(),
        call_ensures(diff_with_forced, (source, dest, tol, forced), plan),
        0 <= k < m < plan.0@.len(),
    ensures
        ({
            let a = action_views(plan.0@)[k];
            let b = action_views(plan.0@)[m];
            &&& b is RemoveConflict ==> a is RemoveConflict
            &&& b is CreateDir ==> a is RemoveConflict || a is CreateDir
            &&& a is Copy ==> !(b is RemoveConflict || b is CreateDir)
            &&& a is CreateSymlink ==> !(b is RemoveConflict || b is CreateDir || b is Copy)
            &&& a is SetFileMeta ==> b is SetFileMeta || b is DeleteFile || b is DeleteDir
                || b is SetDirMeta
            &&& a is DeleteFile ==> b is DeleteFile || b is DeleteDir || b is SetDirMeta
            &&& a is DeleteDir ==> b is DeleteDir || b is SetDirMeta
            &&& a is SetDirMeta ==> b is SetDirMeta
            &&& a is CreateDir && b is CreateDir ==> parts(path_of(a)).len() <= parts(
                path_of(b),
            ).len()
            &&& (a is DeleteDir && b is DeleteDir) || (a is SetDirMeta && b is SetDirMeta)
                ==> parts(path_of(a)).len() >= parts(path_of(b)).len()
            &&& (a is RemoveConflict && b is RemoveConflict) || (a is Copy && b is Copy) || (
            a is CreateSymlink && b is CreateSymlink) || (a is SetFileMeta && b is SetFileMeta) || (
            a is DeleteFile && b is DeleteFile) ==> path_less(path_of(a), path_of(b))
            &&& (a is CreateDir && b is CreateDir) || (a is DeleteDir && b is DeleteDir) || (
            a is SetDirMeta && b is SetDirMeta) ==> parts(path_of(a)) != parts(path_of(b)) && (
            parts(path_of(a)).len() == parts(path_of(b)).len() ==> path_less(
                path_of(a),
                path_of(b),
            ))
        }),
{
    source.is_sorted();
    dest.is_sorted();
    actions_run_in_order(source@, dest@, tol, forced@, k, m);
}

/// The figures count the actions: copied files and symlinks, the bytes of the
/// files, what is removed, the directories that are created and the files whose
/// permissions are set. Each file of the source is copied or skipped.
pub proof fn figures_tell_what_is_planned(
    source: &Tree,
    dest: &Tree,
    tol: i64,
    forced: &PathSet,
    plan: (Vec<Action>, Stats),
)
    requires
        source.wf(),
        dest.wf(),
        plan_fits(source@, dest@, tol, forced@),
        call_ensures(diff_with_forced, (source, dest, tol, forced), plan),
    ensures
        ({
            let actions = action_views(plan.0@);
            let stats = plan.1;
            let copied = actions.filter(|a: ActionView| a is Copy).len();
            &&& stats.copy_count == copied + actions.filter(
                |a: ActionView| a is CreateSymlink,
            ).len()
            &&& stats.delete_count == actions.filter(|a: ActionView| a is RemoveConflict).len()
                + actions.filter(|a: ActionView| a is DeleteFile).len() + actions.filter(
                |a: ActionView| a is DeleteDir,
            ).len()
            &&& stats.mkdir_count == actions.filter(|a: ActionView| a is CreateDir).len()
            &&& stats.meta_count == actions.filter(|a: ActionView| a is SetFileMeta).len()
            &&& stats.skip_count + copied == source@.filter(
                |i: Item| i.entry.kind is File,
            ).len()
            &&& stats.copy_bytes == bytes_of(actions)
        }),
{
    source.is_sorted();
    dest.is_sorted();
    figures_count_the_actions(source@, dest@, tol, forced@);
    assert((|a: ActionView| a is RemoveConflict) =~= (|a: ActionView| phase_of(a) == 0));
    assert((|a: ActionView| a is CreateDir) =~= (|a: ActionView| phase_of(a) == 1));
    assert((|a: ActionView| a is Copy) =~= (|a: ActionView| phase_of(a) == 2));
    assert((|a: ActionView| a is CreateSymlink) =~= (|a: ActionView| phase_of(a) == 3));
    assert((|a: ActionView| a is SetFileMeta) =~= (|a: ActionView| phase_of(a) == 4));
    assert((|a: ActionView| a is DeleteFile) =~= (|a: ActionView| phase_of(a) == 5));
    assert((|a: ActionView| a is DeleteDir) =~= (|a: ActionView| phase_of(a) == 6));
}

/// An action is seen as it is, and a copy of it is the same.
pub proof fn actions_are_seen_as_they_are(action: &Action, copy: Action)
    requires
        call_ensures(Action::clone, (action,), copy),
    ensures
        copy@ == action@,
        action@ == match action {
            Action::RemoveConflict(rel) => ActionView::RemoveConflict(rel@),
            Action::CreateDir(rel) => ActionView::CreateDir(rel@),
            Action::Copy { rel, size } => ActionView::Copy { rel: rel@, size: *size },
            Action::CreateSymlink { rel, target, mtime } => ActionView::CreateSymlink {
                rel: rel@,
                target: target@,
                mtime: *mtime,
            },
            Action::DeleteFile(rel) => ActionView::DeleteFile(rel@),
            Action::DeleteDir(rel) => ActionView::DeleteDir(rel@),
            Action::SetDirMeta { rel, mtime, mode } => ActionView::SetDirMeta {
                rel: rel@,
                mtime: *mtime,
                mode: *mode,
            },
            Action::SetFileMeta { rel, mode } => ActionView::SetFileMeta { rel: rel@, mode: *mode },
        },
{
}

/// Figures start at zero.
pub proof fn figures_start_at_zero(stats: Stats)
    requires
        call_ensures(Stats::default, (), stats),
    ensures
        stats.copy_count == 0 && stats.copy_bytes == 0 && stats.delete_count == 0
            && stats.mkdir_count == 0 && stats.skip_count == 0 && stats.meta_count == 0,
{
}

} // verus!
