//! When two trees agree, what a plan may name, and in which order it does so.

use crate::entry::same_type;
use crate::path::{depth, path_less, same_path};
use crate::picks::{
    all_different, at_depth, deep_first, deep_first_orders, depth_bound, depth_stays_below_bound,
    filter_keeps_different, filter_members, levels_down, levels_up, shallow_first,
    shallow_first_orders, sorted_items_differ,
};
use crate::plan::{
    blocked, changed, conditions_share_out, conflicts, copies, dir_in_sync, dir_metas,
    filter_keeps_order, holds_child, is_stale, lies_under, link_in_sync, matched, mode_fixes,
    new_dirs, new_links, plan_fits, planned, removes_each_entry_once, render, rendered, stale_dirs,
    stale_files, stays, tally, total_size, ActionView, Step,
};
use crate::tree::{ascending, holds, lookup, lookup_at, paths_of, Item};
use vstd::prelude::*;

verus! {

/// The source entry has a counterpart that needs no action.
pub open spec fn settled(item: Item, dst: Seq<Item>, tol: i64) -> bool {
    let d = lookup(dst, item.path);
    if item.entry.kind is Dir {
        dir_in_sync(item.entry, d, tol)
    } else if item.entry.kind is File {
        stays(item.entry, d, tol, false) && item.entry.mode == d->0.mode
    } else {
        link_in_sync(item.entry, d, tol)
    }
}

/// Each source entry is settled, and the target holds nothing else.
pub open spec fn agree(src: Seq<Item>, dst: Seq<Item>, tol: i64) -> bool {
    &&& forall|i: int| 0 <= i < src.len() ==> settled(#[trigger] src[i], dst, tol)
    &&& forall|j: int| 0 <= j < dst.len() ==> lookup(src, (#[trigger] dst[j]).path) is Some
}

/// A choice that no item of the list passes is empty, and only then.
proof fn lemma_none_pass(list: Seq<Item>, p: spec_fn(Item) -> bool)
    ensures
        list.filter(p).len() == 0 <==> forall|i: int|
            0 <= i < list.len() ==> !p(#[trigger] list[i]),
{
    filter_members(list, p);
    let out = list.filter(p);
    if out.len() > 0 {
        assert(out.contains(out[0]));
        let i = choose|i: int| 0 <= i < list.len() && list[i] == out[0];
        assert(p(list[i]));
    } else {
        assert forall|i: int| 0 <= i < list.len() implies !p(#[trigger] list[i]) by {
            if p(list[i]) {
                assert(out.contains(list[i]));
            }
        }
    }
}

/// Reordering keeps an empty list empty, and no other.
proof fn lemma_empty_orders(list: Seq<Item>)
    requires
        all_different(list),
    ensures
        shallow_first(list).len() == 0 <==> list.len() == 0,
        deep_first(list).len() == 0 <==> list.len() == 0,
{
    shallow_first_orders(list);
    deep_first_orders(list);
    if list.len() > 0 {
        assert(list.contains(list[0]));
        assert(shallow_first(list).contains(list[0]));
        assert(deep_first(list).contains(list[0]));
    }
    if shallow_first(list).len() > 0 {
        assert(shallow_first(list).contains(shallow_first(list)[0]));
    }
    if deep_first(list).len() > 0 {
        assert(deep_first(list).contains(deep_first(list)[0]));
    }
}

/// No file of the tree has to be copied whatever it looks like.
pub open spec fn none_forced(src: Seq<Item>, forced: Seq<Seq<u8>>) -> bool {
    forall|i: int|
        0 <= i < src.len() && (#[trigger] src[i]).entry.kind is File ==> !holds(
            forced,
            src[i].path,
        )
}

/// A plan is empty exactly where the trees agree and no copy is forced.
pub proof fn empty_plan_means_agreement(
    src: Seq<Item>,
    dst: Seq<Item>,
    tol: i64,
    forced: Seq<Seq<u8>>,
)
    requires
        ascending(paths_of(src)),
        ascending(paths_of(dst)),
    ensures
        planned(src, dst, tol, forced).len() == 0 <==> agree(src, dst, tol) && none_forced(
            src,
            forced,
        ),
{
    sorted_items_differ(src);
    sorted_items_differ(dst);
    let p0 = |i: Item| blocked(i.entry, lookup(dst, i.path));
    let p1 = |i: Item| i.entry.kind is Dir && !matched(i.entry, lookup(dst, i.path));
    let p2 = |i: Item|
        i.entry.kind is File && !stays(i.entry, lookup(dst, i.path), tol, holds(forced, i.path));
    let p3 = |i: Item|
        i.entry.kind is Symlink && !link_in_sync(i.entry, lookup(dst, i.path), tol);
    let p4 = |i: Item|
        stays(i.entry, lookup(dst, i.path), tol, holds(forced, i.path)) && i.entry.mode != lookup(
            dst,
            i.path,
        )->0.mode;
    let p5 = |i: Item| is_stale(i, src, dst) && !(i.entry.kind is Dir);
    let p6 = |i: Item| is_stale(i, src, dst) && i.entry.kind is Dir;
    let p7 = |i: Item|
        i.entry.kind is Dir && (!dir_in_sync(i.entry, lookup(dst, i.path), tol) || holds_child(
            changed(src, dst, tol, forced),
            i.path,
        ));
    lemma_none_pass(src, p0);
    lemma_none_pass(src, p1);
    lemma_none_pass(src, p2);
    lemma_none_pass(src, p3);
    lemma_none_pass(src, p4);
    lemma_none_pass(dst, p5);
    lemma_none_pass(dst, p6);
    lemma_none_pass(src, p7);
    filter_keeps_different(src, p1);
    filter_keeps_different(dst, p6);
    filter_keeps_different(src, p7);
    lemma_empty_orders(new_dirs(src, dst));
    lemma_empty_orders(stale_dirs(dst, src, dst));
    lemma_empty_orders(dir_metas(src, dst, tol, forced));
    let plan = planned(src, dst, tol, forced);
    assert(plan.len() == conflicts(src, dst).len() + shallow_first(new_dirs(src, dst)).len()
        + copies(src, dst, tol, forced).len() + new_links(src, dst, tol).len() + mode_fixes(
        src,
        dst,
        tol,
        forced,
    ).len() + stale_files(dst, src, dst).len() + deep_first(stale_dirs(dst, src, dst)).len()
        + deep_first(dir_metas(src, dst, tol, forced)).len());
    if plan.len() == 0 {
        assert forall|i: int| 0 <= i < src.len() implies settled(#[trigger] src[i], dst, tol) by {
            assert(!p0(src[i]) && !p1(src[i]) && !p2(src[i]) && !p3(src[i]) && !p4(src[i])
                && !p7(src[i]));
        }
        assert forall|i: int|
            0 <= i < src.len() && (#[trigger] src[i]).entry.kind is File implies !holds(
            forced,
            src[i].path,
        ) by {
            assert(!p2(src[i]));
        }
        assert forall|j: int| 0 <= j < dst.len() implies lookup(
            src,
            (#[trigger] dst[j]).path,
        ) is Some by {
            assert(!p5(dst[j]) && !p6(dst[j]));
            assert(!lies_under(conflicts(src, dst), dst[j].path));
        }
    }
    if agree(src, dst, tol) && none_forced(src, forced) {
        assert forall|i: int| 0 <= i < src.len() implies !p0(#[trigger] src[i]) && !p1(src[i])
            && !p2(src[i]) && !p3(src[i]) && !p4(src[i]) by {
            assert(settled(src[i], dst, tol));
        }
        assert forall|j: int| 0 <= j < dst.len() implies !p5(#[trigger] dst[j]) && !p6(dst[j]) by {
            assert(lookup(src, dst[j].path) is Some);
        }
        assert(conflicts(src, dst).len() == 0);
        assert(changed(src, dst, tol, forced).len() == 0);
        assert forall|i: int| 0 <= i < src.len() implies !p7(#[trigger] src[i]) by {
            assert(settled(src[i], dst, tol));
            assert(!holds_child(changed(src, dst, tol, forced), src[i].path));
        }
    }
}

/// A tree agrees with itself, so that mirroring it onto an equal one needs no
/// action.
pub proof fn a_tree_agrees_with_itself(tree: Seq<Item>, tol: i64)
    requires
        ascending(paths_of(tree)),
        tol >= 0,
    ensures
        agree(tree, tree, tol),
        planned(tree, tree, tol, Seq::empty()).len() == 0,
{
    assert forall|i: int| 0 <= i < tree.len() implies settled(#[trigger] tree[i], tree, tol) by {
        assert(same_path(tree[i].path, tree[i].path));
        lookup_at(tree, i, tree[i].path);
    }
    assert forall|j: int| 0 <= j < tree.len() implies lookup(
        tree,
        (#[trigger] tree[j]).path,
    ) is Some by {
        lookup_at(tree, j, tree[j].path);
    }
    assert forall|q: Seq<u8>| !#[trigger] holds(Seq::<Seq<u8>>::empty(), q) by {}
    empty_plan_means_agreement(tree, tree, tol, Seq::empty());
}

// ---------------------------------------------------------------------------
// The make-up of a plan
// ---------------------------------------------------------------------------

/// The place of an action's kind in the order in which a plan runs.
pub open spec fn phase_of(action: ActionView) -> int {
    match action {
        ActionView::RemoveConflict(_) => 0,
        ActionView::CreateDir(_) => 1,
        ActionView::Copy { .. } => 2,
        ActionView::CreateSymlink { .. } => 3,
        ActionView::SetFileMeta { .. } => 4,
        ActionView::DeleteFile(_) => 5,
        ActionView::DeleteDir(_) => 6,
        ActionView::SetDirMeta { .. } => 7,
    }
}

/// The path that an action names.
pub open spec fn named(action: ActionView) -> Seq<u8> {
    match action {
        ActionView::RemoveConflict(rel) => rel,
        ActionView::CreateDir(rel) => rel,
        ActionView::Copy { rel, .. } => rel,
        ActionView::CreateSymlink { rel, .. } => rel,
        ActionView::SetFileMeta { rel, .. } => rel,
        ActionView::DeleteFile(rel) => rel,
        ActionView::DeleteDir(rel) => rel,
        ActionView::SetDirMeta { rel, .. } => rel,
    }
}

/// The entries that phase `n` of a plan is about, in their order.
pub open spec fn phase_list(
    src: Seq<Item>,
    dst: Seq<Item>,
    tol: i64,
    forced: Seq<Seq<u8>>,
    n: int,
) -> Seq<Item> {
    if n == 0 {
        conflicts(src, dst)
    } else if n == 1 {
        shallow_first(new_dirs(src, dst))
    } else if n == 2 {
        copies(src, dst, tol, forced)
    } else if n == 3 {
        new_links(src, dst, tol)
    } else if n == 4 {
        mode_fixes(src, dst, tol, forced)
    } else if n == 5 {
        stale_files(dst, src, dst)
    } else if n == 6 {
        deep_first(stale_dirs(dst, src, dst))
    } else {
        deep_first(dir_metas(src, dst, tol, forced))
    }
}

/// The step that phase `n` of a plan takes.
pub open spec fn phase_step(n: int) -> Step {
    if n == 0 {
        Step::Conflict
    } else if n == 1 {
        Step::MakeDir
    } else if n == 2 {
        Step::Copy
    } else if n == 3 {
        Step::Link
    } else if n == 4 {
        Step::Mode
    } else if n == 5 {
        Step::DropFile
    } else if n == 6 {
        Step::DropDir
    } else {
        Step::DirMeta
    }
}

/// How many actions the phases before phase `n` have.
spec fn phase_start(
    src: Seq<Item>,
    dst: Seq<Item>,
    tol: i64,
    forced: Seq<Seq<u8>>,
    n: int,
) -> nat
    decreases n,
{
    if n <= 0 {
        0
    } else {
        phase_start(src, dst, tol, forced, n - 1) + phase_list(
            src,
            dst,
            tol,
            forced,
            n - 1,
        ).len()
    }
}

/// The phase that action `k` of the plan belongs to.
proof fn lemma_phase_at(src: Seq<Item>, dst: Seq<Item>, tol: i64, forced: Seq<Seq<u8>>, k: int)
    requires
        0 <= k < planned(src, dst, tol, forced).len(),
    ensures
        ({
            let a = planned(src, dst, tol, forced)[k];
            let n = phase_of(a);
            let at = phase_start(src, dst, tol, forced, n);
            let list = phase_list(src, dst, tol, forced, n);
            &&& 0 <= n < 8
            &&& at <= k < at + list.len()
            &&& a == render(list[k - at], phase_step(n))
        }),
{
    reveal_with_fuel(phase_start, 9);
    let l0 = phase_list(src, dst, tol, forced, 0);
    let l1 = phase_list(src, dst, tol, forced, 1);
    let l2 = phase_list(src, dst, tol, forced, 2);
    let l3 = phase_list(src, dst, tol, forced, 3);
    let l4 = phase_list(src, dst, tol, forced, 4);
    let l5 = phase_list(src, dst, tol, forced, 5);
    let l6 = phase_list(src, dst, tol, forced, 6);
    let l7 = phase_list(src, dst, tol, forced, 7);
    assert(planned(src, dst, tol, forced) == rendered(l0, Step::Conflict) + rendered(
        l1,
        Step::MakeDir,
    ) + rendered(l2, Step::Copy) + rendered(l3, Step::Link) + rendered(l4, Step::Mode) + rendered(
        l5,
        Step::DropFile,
    ) + rendered(l6, Step::DropDir) + rendered(l7, Step::DirMeta));
    let s1 = l0.len() as int;
    let s2 = s1 + l1.len();
    let s3 = s2 + l2.len();
    let s4 = s3 + l3.len();
    let s5 = s4 + l4.len();
    let s6 = s5 + l5.len();
    let s7 = s6 + l6.len();
    let a = planned(src, dst, tol, forced)[k];
    if k < s1 {
        assert(a == render(l0[k], Step::Conflict));
    } else if k < s2 {
        assert(a == render(l1[k - s1], Step::MakeDir));
    } else if k < s3 {
        assert(a == render(l2[k - s2], Step::Copy));
    } else if k < s4 {
        assert(a == render(l3[k - s3], Step::Link));
    } else if k < s5 {
        assert(a == render(l4[k - s4], Step::Mode));
    } else if k < s6 {
        assert(a == render(l5[k - s5], Step::DropFile));
    } else if k < s7 {
        assert(a == render(l6[k - s6], Step::DropDir));
    } else {
        assert(a == render(l7[k - s7], Step::DirMeta));
    }
}

proof fn lemma_starts_ascend(
    src: Seq<Item>,
    dst: Seq<Item>,
    tol: i64,
    forced: Seq<Seq<u8>>,
    m: int,
    n: int,
)
    requires
        0 <= m <= n,
    ensures
        phase_start(src, dst, tol, forced, m) <= phase_start(src, dst, tol, forced, n),
    decreases n - m,
{
    if m < n {
        lemma_starts_ascend(src, dst, tol, forced, m, n - 1);
    }
}

/// The order by depth keeps the order of items with as many components.
proof fn lemma_levels_keep_order(list: Seq<Item>, n: nat)
    requires
        ascending(paths_of(list)),
    ensures
        forall|i: int|
            0 <= i < levels_down(list, n).len() ==> depth(
                (#[trigger] levels_down(list, n)[i]).path,
            ) < n,
        forall|i: int|
            0 <= i < levels_up(list, n).len() ==> depth((#[trigger] levels_up(list, n)[i]).path)
                < n,
        in_order_by_depth(levels_down(list, n)),
        in_order_by_depth(levels_up(list, n)),
    decreases n,
{
    if n > 0 {
        let m = (n - 1) as nat;
        let p = |item: Item| depth(item.path) == n - 1;
        lemma_levels_keep_order(list, m);
        filter_keeps_order(list, p);
        filter_members(list, p);
        let b = at_depth(list, n - 1);
        let down = levels_down(list, m);
        let up = levels_up(list, m);
        assert forall|i: int| 0 <= i < b.len() implies depth((#[trigger] b[i]).path) == m by {
            assert(b.contains(b[i]));
        }
        assert forall|i: int, j: int|
            #![trigger b[i], b[j]]
            0 <= i < j < b.len() implies path_less(b[i].path, b[j].path) by {
            assert(paths_of(b)[i] == b[i].path && paths_of(b)[j] == b[j].path);
        }
        let x = down + b;
        assert forall|i: int, j: int|
            #![trigger x[i], x[j]]
            0 <= i < j < x.len() && depth(x[i].path) == depth(x[j].path) implies path_less(
            x[i].path,
            x[j].path,
        ) by {
            if j < down.len() {
                assert(x[i] == down[i] && x[j] == down[j]);
            } else if i >= down.len() {
                assert(x[i] == b[i - down.len()] && x[j] == b[j - down.len()]);
            } else {
                assert(x[i] == down[i] && x[j] == b[j - down.len()]);
            }
        }
        let y = b + up;
        assert forall|i: int, j: int|
            #![trigger y[i], y[j]]
            0 <= i < j < y.len() && depth(y[i].path) == depth(y[j].path) implies path_less(
            y[i].path,
            y[j].path,
        ) by {
            if j < b.len() {
                assert(y[i] == b[i] && y[j] == b[j]);
            } else if i >= b.len() {
                assert(y[i] == up[i - b.len()] && y[j] == up[j - b.len()]);
            } else {
                assert(y[i] == b[i] && y[j] == up[j - b.len()]);
            }
        }
        assert forall|i: int| 0 <= i < x.len() implies depth((#[trigger] x[i]).path) < n by {
            if i < down.len() {
                assert(x[i] == down[i]);
            } else {
                assert(x[i] == b[i - down.len()]);
            }
        }
        assert forall|i: int| 0 <= i < y.len() implies depth((#[trigger] y[i]).path) < n by {
            if i < b.len() {
                assert(y[i] == b[i]);
            } else {
                assert(y[i] == up[i - b.len()]);
            }
        }
    }
}

/// Items with as many components stand in the order of their paths.
pub open spec fn in_order_by_depth(list: Seq<Item>) -> bool {
    forall|i: int, j: int|
        #![trigger list[i], list[j]]
        0 <= i < j < list.len() && depth(list[i].path) == depth(list[j].path) ==> path_less(
            list[i].path,
            list[j].path,
        )
}

/// The entries of a phase differ, and stand in the order of their paths; those
/// of a phase that goes by depth, within one depth.
proof fn lemma_phase_order(
    src: Seq<Item>,
    dst: Seq<Item>,
    tol: i64,
    forced: Seq<Seq<u8>>,
    n: int,
)
    requires
        ascending(paths_of(src)),
        ascending(paths_of(dst)),
        0 <= n < 8,
    ensures
        all_different(phase_list(src, dst, tol, forced, n)),
        in_order_by_depth(phase_list(src, dst, tol, forced, n)),
        n != 1 && n != 6 && n != 7 ==> ascending(paths_of(phase_list(src, dst, tol, forced, n))),
{
    let list = phase_list(src, dst, tol, forced, n);
    sorted_items_differ(src);
    sorted_items_differ(dst);
    if n == 0 {
        filter_keeps_order(src, |i: Item| blocked(i.entry, lookup(dst, i.path)));
    } else if n == 1 {
        let p = |i: Item| i.entry.kind is Dir && !matched(i.entry, lookup(dst, i.path));
        filter_keeps_order(src, p);
        filter_keeps_different(src, p);
        shallow_first_orders(new_dirs(src, dst));
        lemma_levels_keep_order(new_dirs(src, dst), depth_bound(new_dirs(src, dst)));
    } else if n == 2 {
        filter_keeps_order(
            src,
            |i: Item|
                i.entry.kind is File && !stays(
                    i.entry,
                    lookup(dst, i.path),
                    tol,
                    holds(forced, i.path),
                ),
        );
    } else if n == 3 {
        filter_keeps_order(
            src,
            |i: Item| i.entry.kind is Symlink && !link_in_sync(i.entry, lookup(dst, i.path), tol),
        );
    } else if n == 4 {
        filter_keeps_order(
            src,
            |i: Item|
                stays(i.entry, lookup(dst, i.path), tol, holds(forced, i.path)) && i.entry.mode
                    != lookup(dst, i.path)->0.mode,
        );
    } else if n == 5 {
        filter_keeps_order(dst, |i: Item| is_stale(i, src, dst) && !(i.entry.kind is Dir));
    } else if n == 6 {
        let p = |i: Item| is_stale(i, src, dst) && i.entry.kind is Dir;
        filter_keeps_order(dst, p);
        filter_keeps_different(dst, p);
        deep_first_orders(stale_dirs(dst, src, dst));
        lemma_levels_keep_order(
            stale_dirs(dst, src, dst),
            depth_bound(stale_dirs(dst, src, dst)),
        );
    } else {
        let p = |i: Item|
            i.entry.kind is Dir && (!dir_in_sync(i.entry, lookup(dst, i.path), tol) || holds_child(
                changed(src, dst, tol, forced),
                i.path,
            ));
        filter_keeps_order(src, p);
        filter_keeps_different(src, p);
        deep_first_orders(dir_metas(src, dst, tol, forced));
        lemma_levels_keep_order(
            dir_metas(src, dst, tol, forced),
            depth_bound(dir_metas(src, dst, tol, forced)),
        );
    }
    if n != 1 && n != 6 && n != 7 {
        sorted_items_differ(list);
        assert forall|i: int, j: int|
            #![trigger list[i], list[j]]
            0 <= i < j < list.len() implies path_less(list[i].path, list[j].path) by {
            assert(paths_of(list)[i] == list[i].path && paths_of(list)[j] == list[j].path);
        }
    }
}

/// A plan removes conflicts first, then creates directories, copies files,
/// creates symlinks, aligns permissions, deletes files, deletes directories and
/// sets directory metadata last. A directory is created before what lies in
/// it, and deleted, or given its metadata, after what lies in it. Apart from
/// that the actions of a kind go in the order of their paths, and no two of
/// them name the same one.
pub proof fn actions_run_in_order(
    src: Seq<Item>,
    dst: Seq<Item>,
    tol: i64,
    forced: Seq<Seq<u8>>,
    i: int,
    j: int,
)
    requires
        ascending(paths_of(src)),
        ascending(paths_of(dst)),
        0 <= i < j < planned(src, dst, tol, forced).len(),
    ensures
        ({
            let a = planned(src, dst, tol, forced)[i];
            let b = planned(src, dst, tol, forced)[j];
            &&& phase_of(a) <= phase_of(b)
            &&& a is CreateDir && b is CreateDir ==> depth(named(a)) <= depth(named(b))
            &&& a is DeleteDir && b is DeleteDir ==> depth(named(a)) >= depth(named(b))
            &&& a is SetDirMeta && b is SetDirMeta ==> depth(named(a)) >= depth(named(b))
            &&& phase_of(a) == phase_of(b) ==> {
                let by_depth = a is CreateDir || a is DeleteDir || a is SetDirMeta;
                &&& !same_path(named(a), named(b))
                &&& !by_depth || depth(named(a)) == depth(named(b)) ==> path_less(
                    named(a),
                    named(b),
                )
            }
        }),
{
    lemma_phase_at(src, dst, tol, forced, i);
    lemma_phase_at(src, dst, tol, forced, j);
    let a = planned(src, dst, tol, forced)[i];
    let b = planned(src, dst, tol, forced)[j];
    let m = phase_of(a);
    let n = phase_of(b);
    if m > n {
        lemma_starts_ascend(src, dst, tol, forced, n + 1, m);
    }
    sorted_items_differ(src);
    sorted_items_differ(dst);
    filter_keeps_different(
        src,
        |i: Item| i.entry.kind is Dir && !matched(i.entry, lookup(dst, i.path)),
    );
    filter_keeps_different(dst, |i: Item| is_stale(i, src, dst) && i.entry.kind is Dir);
    filter_keeps_different(
        src,
        |i: Item|
            i.entry.kind is Dir && (!dir_in_sync(i.entry, lookup(dst, i.path), tol) || holds_child(
                changed(src, dst, tol, forced),
                i.path,
            )),
    );
    shallow_first_orders(new_dirs(src, dst));
    deep_first_orders(stale_dirs(dst, src, dst));
    deep_first_orders(dir_metas(src, dst, tol, forced));
    if m == n {
        lemma_phase_order(src, dst, tol, forced, n);
        let list = phase_list(src, dst, tol, forced, n);
        let at = phase_start(src, dst, tol, forced, n) as int;
        assert(named(a) == list[i - at].path && named(b) == list[j - at].path);
        assert(paths_of(list)[i - at] == list[i - at].path);
        assert(paths_of(list)[j - at] == list[j - at].path);
    }
}

/// The entry that an action of a plan was made for.
proof fn lemma_made_for(src: Seq<Item>, dst: Seq<Item>, tol: i64, forced: Seq<Seq<u8>>, k: int)
    requires
        ascending(paths_of(src)),
        ascending(paths_of(dst)),
        0 <= k < planned(src, dst, tol, forced).len(),
    ensures
        ({
            let a = planned(src, dst, tol, forced)[k];
            if a is DeleteFile || a is DeleteDir {
                exists|t: int|
                    0 <= t < dst.len() && (#[trigger] dst[t]).path == named(a) && is_stale(
                        dst[t],
                        src,
                        dst,
                    ) && (a is DeleteDir <==> dst[t].entry.kind is Dir)
            } else {
                exists|t: int| 0 <= t < src.len() && (#[trigger] src[t]).path == named(a) && {
                    let d = lookup(dst, src[t].path);
                    let f = holds(forced, src[t].path);
                    &&& a is RemoveConflict ==> blocked(src[t].entry, d)
                    &&& a is CreateDir ==> src[t].entry.kind is Dir && !matched(src[t].entry, d)
                    &&& a is Copy ==> src[t].entry.kind is File && !stays(
                        src[t].entry,
                        d,
                        tol,
                        f,
                    )
                    &&& a is CreateSymlink ==> src[t].entry.kind is Symlink
                    &&& a is SetFileMeta ==> stays(src[t].entry, d, tol, f)
                    &&& a is SetDirMeta ==> src[t].entry.kind is Dir
                }
            }
        }),
{
    lemma_phase_at(src, dst, tol, forced, k);
    let a = planned(src, dst, tol, forced)[k];
    let n = phase_of(a);
    let list = phase_list(src, dst, tol, forced, n);
    let item = list[k - phase_start(src, dst, tol, forced, n)];
    assert(list.contains(item));
    sorted_items_differ(src);
    sorted_items_differ(dst);
    if n == 0 {
        filter_members(src, |i: Item| blocked(i.entry, lookup(dst, i.path)));
    } else if n == 1 {
        let p = |i: Item| i.entry.kind is Dir && !matched(i.entry, lookup(dst, i.path));
        filter_keeps_different(src, p);
        shallow_first_orders(new_dirs(src, dst));
        assert(new_dirs(src, dst).contains(item));
        filter_members(src, p);
    } else if n == 2 {
        filter_members(
            src,
            |i: Item|
                i.entry.kind is File && !stays(
                    i.entry,
                    lookup(dst, i.path),
                    tol,
                    holds(forced, i.path),
                ),
        );
    } else if n == 3 {
        filter_members(
            src,
            |i: Item| i.entry.kind is Symlink && !link_in_sync(i.entry, lookup(dst, i.path), tol),
        );
    } else if n == 4 {
        filter_members(
            src,
            |i: Item|
                stays(i.entry, lookup(dst, i.path), tol, holds(forced, i.path)) && i.entry.mode
                    != lookup(dst, i.path)->0.mode,
        );
    } else if n == 5 {
        filter_members(dst, |i: Item| is_stale(i, src, dst) && !(i.entry.kind is Dir));
    } else if n == 6 {
        let p = |i: Item| is_stale(i, src, dst) && i.entry.kind is Dir;
        filter_keeps_different(dst, p);
        deep_first_orders(stale_dirs(dst, src, dst));
        assert(stale_dirs(dst, src, dst).contains(item));
        filter_members(dst, p);
    } else {
        let p = |i: Item|
            i.entry.kind is Dir && (!dir_in_sync(i.entry, lookup(dst, i.path), tol) || holds_child(
                changed(src, dst, tol, forced),
                i.path,
            ));
        filter_keeps_different(src, p);
        deep_first_orders(dir_metas(src, dst, tol, forced));
        assert(dir_metas(src, dst, tol, forced).contains(item));
        filter_members(src, p);
    }
    if n == 5 || n == 6 {
        assert(dst.contains(item));
        let t = choose|t: int| 0 <= t < dst.len() && dst[t] == item;
        assert(dst[t].path == named(a));
    } else {
        assert(src.contains(item));
        let t = choose|t: int| 0 <= t < src.len() && src[t] == item;
        assert(src[t].path == named(a));
    }
}

/// A plan deletes only what the target holds and the source does not, and
/// nothing that goes with a removed conflict. All other actions name paths of
/// the source; those that remove a conflict name a path that both trees hold,
/// with different types.
pub proof fn actions_name_known_paths(
    src: Seq<Item>,
    dst: Seq<Item>,
    tol: i64,
    forced: Seq<Seq<u8>>,
    k: int,
)
    requires
        ascending(paths_of(src)),
        ascending(paths_of(dst)),
        0 <= k < planned(src, dst, tol, forced).len(),
    ensures
        ({
            let a = planned(src, dst, tol, forced)[k];
            let s = lookup(src, named(a));
            let d = lookup(dst, named(a));
            if a is DeleteFile || a is DeleteDir {
                &&& s is None
                &&& d is Some
                &&& a is DeleteDir <==> d->0.kind is Dir
                &&& !lies_under(conflicts(src, dst), named(a))
            } else {
                &&& s is Some
                &&& a is RemoveConflict ==> d is Some && !same_type(s->0.kind, d->0.kind)
                &&& a is CreateDir ==> s->0.kind is Dir && !matched(s->0, d)
                &&& a is Copy ==> s->0.kind is File
                &&& a is CreateSymlink ==> s->0.kind is Symlink
                &&& a is SetFileMeta ==> s->0.kind is File && d is Some && d->0.kind is File
                &&& a is SetDirMeta ==> s->0.kind is Dir
            }
        }),
{
    lemma_made_for(src, dst, tol, forced, k);
    let a = planned(src, dst, tol, forced)[k];
    if a is DeleteFile || a is DeleteDir {
        let t = choose|t: int|
            0 <= t < dst.len() && (#[trigger] dst[t]).path == named(a) && is_stale(
                dst[t],
                src,
                dst,
            ) && (a is DeleteDir <==> dst[t].entry.kind is Dir);
        lookup_at(dst, t, named(a));
    } else {
        let t = choose|t: int|
            0 <= t < src.len() && (#[trigger] src[t]).path == named(a) && {
                let d = lookup(dst, src[t].path);
                let f = holds(forced, src[t].path);
                &&& a is RemoveConflict ==> blocked(src[t].entry, d)
                &&& a is CreateDir ==> src[t].entry.kind is Dir && !matched(src[t].entry, d)
                &&& a is Copy ==> src[t].entry.kind is File && !stays(src[t].entry, d, tol, f)
                &&& a is CreateSymlink ==> src[t].entry.kind is Symlink
                &&& a is SetFileMeta ==> stays(src[t].entry, d, tol, f)
                &&& a is SetDirMeta ==> src[t].entry.kind is Dir
            };
        lookup_at(src, t, named(a));
    }
}

/// An action spells its path as one of the trees does: deletions as the
/// target, all others as the source. So a path that is in neither tree, such as
/// an excluded one, is never named.
pub proof fn actions_spell_paths_as_recorded(
    src: Seq<Item>,
    dst: Seq<Item>,
    tol: i64,
    forced: Seq<Seq<u8>>,
    k: int,
)
    requires
        ascending(paths_of(src)),
        ascending(paths_of(dst)),
        0 <= k < planned(src, dst, tol, forced).len(),
    ensures
        ({
            let a = planned(src, dst, tol, forced)[k];
            if a is DeleteFile || a is DeleteDir {
                exists|t: int| 0 <= t < dst.len() && (#[trigger] dst[t]).path == named(a)
            } else {
                exists|t: int| 0 <= t < src.len() && (#[trigger] src[t]).path == named(a)
            }
        }),
{
    lemma_made_for(src, dst, tol, forced, k);
}

/// A forced file of the source is copied, whatever its counterpart looks like.
pub proof fn forced_files_are_copied(
    src: Seq<Item>,
    dst: Seq<Item>,
    tol: i64,
    forced: Seq<Seq<u8>>,
    i: int,
)
    requires
        0 <= i < src.len(),
        src[i].entry.kind is File,
        holds(forced, src[i].path),
    ensures
        planned(src, dst, tol, forced).contains(
            ActionView::Copy { rel: src[i].path, size: src[i].entry.size },
        ),
{
    let p = |i: Item|
        i.entry.kind is File && !stays(i.entry, lookup(dst, i.path), tol, holds(forced, i.path));
    filter_members(src, p);
    let list = copies(src, dst, tol, forced);
    assert(src.contains(src[i]));
    assert(list.contains(src[i]));
    let j = choose|j: int| 0 <= j < list.len() && list[j] == src[i];
    let r0 = rendered(conflicts(src, dst), Step::Conflict);
    let r1 = rendered(shallow_first(new_dirs(src, dst)), Step::MakeDir);
    let r2 = rendered(list, Step::Copy);
    let at = r0.len() + r1.len() + j;
    assert(r2[j] == render(src[i], Step::Copy));
    assert((r0 + r1 + r2)[at] == r2[j]);
    assert(planned(src, dst, tol, forced)[at] == r2[j]);
}

/// How many actions of phase `n` a list has.
pub open spec fn count(actions: Seq<ActionView>, n: int) -> nat {
    actions.filter(|a: ActionView| phase_of(a) == n).len()
}

/// The actions of one phase are all of that phase.
proof fn lemma_count_phase(list: Seq<Item>, m: int, n: int)
    requires
        0 <= m < 8,
    ensures
        count(rendered(list, phase_step(m)), n) == if m == n {
            list.len()
        } else {
            0
        },
    decreases list.len(),
{
    reveal(Seq::filter);
    if list.len() > 0 {
        let acts = rendered(list, phase_step(m));
        lemma_count_phase(list.drop_last(), m, n);
        assert(acts.drop_last() =~= rendered(list.drop_last(), phase_step(m)));
        assert(acts.last() == render(list.last(), phase_step(m)));
        assert(phase_of(acts.last()) == m);
    }
}

proof fn lemma_count_sum(a: Seq<ActionView>, b: Seq<ActionView>, n: int)
    ensures
        count(a + b, n) == count(a, n) + count(b, n),
{
    Seq::filter_distributes_over_add(a, b, |x: ActionView| phase_of(x) == n);
}

proof fn lemma_count_plan(src: Seq<Item>, dst: Seq<Item>, tol: i64, forced: Seq<Seq<u8>>, n: int)
    requires
        0 <= n < 8,
    ensures
        count(planned(src, dst, tol, forced), n) == phase_list(src, dst, tol, forced, n).len(),
{
    let r0 = rendered(phase_list(src, dst, tol, forced, 0), phase_step(0));
    let r1 = rendered(phase_list(src, dst, tol, forced, 1), phase_step(1));
    let r2 = rendered(phase_list(src, dst, tol, forced, 2), phase_step(2));
    let r3 = rendered(phase_list(src, dst, tol, forced, 3), phase_step(3));
    let r4 = rendered(phase_list(src, dst, tol, forced, 4), phase_step(4));
    let r5 = rendered(phase_list(src, dst, tol, forced, 5), phase_step(5));
    let r6 = rendered(phase_list(src, dst, tol, forced, 6), phase_step(6));
    let r7 = rendered(phase_list(src, dst, tol, forced, 7), phase_step(7));
    lemma_count_phase(phase_list(src, dst, tol, forced, 0), 0, n);
    lemma_count_phase(phase_list(src, dst, tol, forced, 1), 1, n);
    lemma_count_phase(phase_list(src, dst, tol, forced, 2), 2, n);
    lemma_count_phase(phase_list(src, dst, tol, forced, 3), 3, n);
    lemma_count_phase(phase_list(src, dst, tol, forced, 4), 4, n);
    lemma_count_phase(phase_list(src, dst, tol, forced, 5), 5, n);
    lemma_count_phase(phase_list(src, dst, tol, forced, 6), 6, n);
    lemma_count_phase(phase_list(src, dst, tol, forced, 7), 7, n);
    lemma_count_sum(r0, r1, n);
    lemma_count_sum(r0 + r1, r2, n);
    lemma_count_sum(r0 + r1 + r2, r3, n);
    lemma_count_sum(r0 + r1 + r2 + r3, r4, n);
    lemma_count_sum(r0 + r1 + r2 + r3 + r4, r5, n);
    lemma_count_sum(r0 + r1 + r2 + r3 + r4 + r5, r6, n);
    lemma_count_sum(r0 + r1 + r2 + r3 + r4 + r5 + r6, r7, n);
    assert(planned(src, dst, tol, forced) == r0 + r1 + r2 + r3 + r4 + r5 + r6 + r7);
}

/// Reordering keeps the number of entries.
proof fn lemma_levels_len(list: Seq<Item>, n: nat)
    ensures
        levels_down(list, n).len() == list.filter(|x: Item| depth(x.path) < n).len(),
        levels_up(list, n).len() == list.filter(|x: Item| depth(x.path) < n).len(),
    decreases n,
{
    if n == 0 {
        lemma_none_pass(list, |x: Item| depth(x.path) < n);
    } else {
        lemma_levels_len(list, (n - 1) as nat);
        lemma_split_count(
            list,
            |x: Item| depth(x.path) < (n - 1) as nat,
            |x: Item| depth(x.path) == n - 1,
            |x: Item| depth(x.path) < n,
        );
    }
}

/// A choice that two exclusive choices make up is as long as both.
pub proof fn lemma_split_count(
    list: Seq<Item>,
    p: spec_fn(Item) -> bool,
    q: spec_fn(Item) -> bool,
    r: spec_fn(Item) -> bool,
)
    requires
        forall|x: Item| #[trigger] r(x) == (p(x) || q(x)) && !(p(x) && q(x)),
    ensures
        list.filter(p).len() + list.filter(q).len() == list.filter(r).len(),
    decreases list.len(),
{
    reveal(Seq::filter);
    if list.len() > 0 {
        lemma_split_count(list.drop_last(), p, q, r);
        assert(r(list.last()) == (p(list.last()) || q(list.last())));
    }
}

/// A choice that all entries pass is the list.
proof fn lemma_all_pass(list: Seq<Item>, p: spec_fn(Item) -> bool)
    requires
        forall|i: int| 0 <= i < list.len() ==> p(#[trigger] list[i]),
    ensures
        list.filter(p).len() == list.len(),
    decreases list.len(),
{
    reveal(Seq::filter);
    if list.len() > 0 {
        let rest = list.drop_last();
        assert(forall|i: int| 0 <= i < rest.len() ==> rest[i] == list[i]);
        lemma_all_pass(rest, p);
    }
}

proof fn lemma_orders_keep_len(list: Seq<Item>)
    ensures
        shallow_first(list).len() == list.len(),
        deep_first(list).len() == list.len(),
{
    let n = depth_bound(list);
    lemma_levels_len(list, n);
    assert forall|i: int| 0 <= i < list.len() implies (|x: Item| depth(x.path) < n)(
        #[trigger] list[i],
    ) by {
        depth_stays_below_bound(list, i);
    }
    lemma_all_pass(list, |x: Item| depth(x.path) < n);
}

/// The bytes that the actions copy.
pub open spec fn bytes_of(actions: Seq<ActionView>) -> nat
    decreases actions.len(),
{
    if actions.len() == 0 {
        0
    } else {
        bytes_of(actions.drop_last()) + match actions.last() {
            ActionView::Copy { size, .. } => size as nat,
            _ => 0,
        }
    }
}

proof fn lemma_bytes_sum(a: Seq<ActionView>, b: Seq<ActionView>)
    ensures
        bytes_of(a + b) == bytes_of(a) + bytes_of(b),
    decreases b.len(),
{
    if b.len() == 0 {
        assert(a + b =~= a);
    } else {
        assert((a + b).drop_last() =~= a + b.drop_last());
        assert((a + b).last() == b.last());
        lemma_bytes_sum(a, b.drop_last());
    }
}

proof fn lemma_bytes_rendered(list: Seq<Item>, step: Step)
    ensures
        bytes_of(rendered(list, step)) == if step is Copy {
            total_size(list)
        } else {
            0
        },
    decreases list.len(),
{
    if list.len() > 0 {
        let acts = rendered(list, step);
        lemma_bytes_rendered(list.drop_last(), step);
        assert(acts.drop_last() =~= rendered(list.drop_last(), step));
        assert(acts.last() == render(list.last(), step));
    }
}

/// The bytes that a plan copies are those of the files to be copied.
pub proof fn bytes_are_those_of_the_copies(src: Seq<Item>, dst: Seq<Item>, tol: i64, forced: Seq<Seq<u8>>)
    ensures
        bytes_of(planned(src, dst, tol, forced)) == total_size(copies(src, dst, tol, forced)),
{
    let r0 = rendered(phase_list(src, dst, tol, forced, 0), phase_step(0));
    let r1 = rendered(phase_list(src, dst, tol, forced, 1), phase_step(1));
    let r2 = rendered(phase_list(src, dst, tol, forced, 2), phase_step(2));
    let r3 = rendered(phase_list(src, dst, tol, forced, 3), phase_step(3));
    let r4 = rendered(phase_list(src, dst, tol, forced, 4), phase_step(4));
    let r5 = rendered(phase_list(src, dst, tol, forced, 5), phase_step(5));
    let r6 = rendered(phase_list(src, dst, tol, forced, 6), phase_step(6));
    let r7 = rendered(phase_list(src, dst, tol, forced, 7), phase_step(7));
    lemma_bytes_rendered(phase_list(src, dst, tol, forced, 0), phase_step(0));
    lemma_bytes_rendered(phase_list(src, dst, tol, forced, 1), phase_step(1));
    lemma_bytes_rendered(phase_list(src, dst, tol, forced, 2), phase_step(2));
    lemma_bytes_rendered(phase_list(src, dst, tol, forced, 3), phase_step(3));
    lemma_bytes_rendered(phase_list(src, dst, tol, forced, 4), phase_step(4));
    lemma_bytes_rendered(phase_list(src, dst, tol, forced, 5), phase_step(5));
    lemma_bytes_rendered(phase_list(src, dst, tol, forced, 6), phase_step(6));
    lemma_bytes_rendered(phase_list(src, dst, tol, forced, 7), phase_step(7));
    lemma_bytes_sum(r0, r1);
    lemma_bytes_sum(r0 + r1, r2);
    lemma_bytes_sum(r0 + r1 + r2, r3);
    lemma_bytes_sum(r0 + r1 + r2 + r3, r4);
    lemma_bytes_sum(r0 + r1 + r2 + r3 + r4, r5);
    lemma_bytes_sum(r0 + r1 + r2 + r3 + r4 + r5, r6);
    lemma_bytes_sum(r0 + r1 + r2 + r3 + r4 + r5 + r6, r7);
    assert(planned(src, dst, tol, forced) == r0 + r1 + r2 + r3 + r4 + r5 + r6 + r7);
}

/// The files of a tree.
pub open spec fn files(tree: Seq<Item>) -> Seq<Item> {
    tree.filter(|i: Item| i.entry.kind is File)
}

/// The figures of a plan count its actions: files and symlinks to be copied,
/// the bytes of those files, entries to be removed (conflicts among them),
/// directories to be created and permissions to be aligned. Every file of the
/// source is copied or skipped.
pub proof fn figures_count_the_actions(
    src: Seq<Item>,
    dst: Seq<Item>,
    tol: i64,
    forced: Seq<Seq<u8>>,
)
    requires
        ascending(paths_of(src)),
        ascending(paths_of(dst)),
        src.len() <= usize::MAX,
        dst.len() <= usize::MAX,
    ensures
        ({
            let plan = planned(src, dst, tol, forced);
            let stats = tally(src, dst, tol, forced);
            &&& stats.copy_count == count(plan, 2) + count(plan, 3)
            &&& stats.delete_count == count(plan, 0) + count(plan, 5) + count(plan, 6)
            &&& stats.mkdir_count == count(plan, 1)
            &&& stats.meta_count == count(plan, 4)
            &&& stats.skip_count >= stats.meta_count
            &&& stats.skip_count + count(plan, 2) == files(src).len()
            &&& plan_fits(src, dst, tol, forced) ==> stats.copy_bytes == bytes_of(plan)
            &&& count(plan, 0) == conflicts(src, dst).len()
            &&& count(plan, 5) == stale_files(dst, src, dst).len()
            &&& count(plan, 6) == stale_dirs(dst, src, dst).len()
        }),
{
    lemma_count_plan(src, dst, tol, forced, 0);
    lemma_count_plan(src, dst, tol, forced, 1);
    lemma_count_plan(src, dst, tol, forced, 2);
    lemma_count_plan(src, dst, tol, forced, 3);
    lemma_count_plan(src, dst, tol, forced, 4);
    lemma_count_plan(src, dst, tol, forced, 5);
    lemma_count_plan(src, dst, tol, forced, 6);
    lemma_orders_keep_len(new_dirs(src, dst));
    lemma_orders_keep_len(stale_dirs(dst, src, dst));
    removes_each_entry_once(src, dst);
    let p1 = |i: Item| i.entry.kind is Dir && !matched(i.entry, lookup(dst, i.path));
    let p2 = |i: Item|
        i.entry.kind is File && !stays(i.entry, lookup(dst, i.path), tol, holds(forced, i.path));
    let p3 = |i: Item|
        i.entry.kind is Symlink && !link_in_sync(i.entry, lookup(dst, i.path), tol);
    let p4 = |i: Item|
        stays(i.entry, lookup(dst, i.path), tol, holds(forced, i.path)) && i.entry.mode != lookup(
            dst,
            i.path,
        )->0.mode;
    let k = |i: Item| stays(i.entry, lookup(dst, i.path), tol, holds(forced, i.path));
    let rest = |i: Item| k(i) && !p4(i);
    conditions_share_out(src, p1, p2, p3);
    filter_members(src, k);
    filter_members(src, p4);
    lemma_split_count(src, p4, rest, k);
    lemma_split_count(src, k, p2, |i: Item| i.entry.kind is File);
    bytes_are_those_of_the_copies(src, dst, tol, forced);
}

} // verus!
