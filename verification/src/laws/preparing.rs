//! What a run sets out to do, and how much it takes from the target.

use crate::laws::planning::{alike, goes_with_a_conflict, is_recorded};
use crate::losses::{count_gone, extraneous, is_gone};
use crate::path::parts;
use crate::picks::filter_members;
use crate::plan::{
    action_views, conflicts, diff_with_forced, is_above, is_stale, lies_under, planned, Action,
    ActionView, Stats,
};
use crate::session::{deletes, drop_deletes, prepare, Prepared};
use crate::tree::{ascending, lookup, lookup_at, lookup_is_somewhere, paths_of, Item, PathSet, Tree};
use vstd::prelude::*;

verus! {

/// The action deletes an extraneous entry.
pub open spec fn is_deletion(action: ActionView) -> bool {
    action is DeleteFile || action is DeleteDir
}

/// Dropping the deletions leaves all other actions, in their order.
pub proof fn only_deletions_are_dropped(actions: Vec<Action>, kept: Vec<Action>)
    requires
        call_ensures(drop_deletes, (actions,), kept),
    ensures
        action_views(kept@) == action_views(actions@).filter(|a: ActionView| !is_deletion(a)),
{
    assert((|a: ActionView| !is_deletion(a)) =~= (|a: ActionView| !deletes(a)));
}

/// After a complete scan, or where errors are ignored, a run sets out to do all
/// that is planned. After an incomplete one it deletes nothing extraneous, does
/// all else in the same order, and tells how many deletions are held back.
pub proof fn incomplete_scans_hold_deletions_back(
    source: &Tree,
    dest: &Tree,
    tol: i64,
    forced: &PathSet,
    unreadable: usize,
    ignore_errors: bool,
    full: (Vec<Action>, Stats),
    plan: Prepared,
)
    requires
        source.wf(),
        dest.wf(),
        call_ensures(diff_with_forced, (source, dest, tol, forced), full),
        call_ensures(
            prepare,
            (source, dest, tol, forced, unreadable, ignore_errors),
            Some(plan),
        ),
    ensures
        ({
            let all = action_views(full.0@);
            let kept = action_views(plan.actions@);
            let dropped = all.len() - kept.len();
            &&& unreadable == 0 || ignore_errors ==> kept == all
            &&& unreadable > 0 && !ignore_errors ==> kept == all.filter(
                |a: ActionView| !is_deletion(a),
            )
            &&& plan.held_back == if dropped > 0 {
                Some(dropped as u64)
            } else {
                None
            }
            &&& plan.stats.delete_count == full.1.delete_count - dropped
            &&& plan.stats.copy_count == full.1.copy_count
            &&& plan.stats.copy_bytes == full.1.copy_bytes
            &&& plan.stats.mkdir_count == full.1.mkdir_count
            &&& plan.stats.skip_count == full.1.skip_count
            &&& plan.stats.meta_count == full.1.meta_count
        }),
{
    source.is_sorted();
    dest.is_sorted();
    let all = planned(source@, dest@, tol, forced@);
    assert((|a: ActionView| !is_deletion(a)) =~= (|a: ActionView| !deletes(a)));
    crate::session::held_back_figures(source@, dest@, tol, forced@);
}

/// The entry of the target stays only if the source has one of the same type at
/// its place.
pub open spec fn is_lost(item: Item, src: Seq<Item>) -> bool {
    !exists|i: int|
        0 <= i < src.len() && parts((#[trigger] src[i]).path) == parts(item.path) && alike(
            src[i].entry.kind,
            item.entry.kind,
        )
}

proof fn lemma_lost(src: Seq<Item>, item: Item)
    requires
        ascending(paths_of(src)),
    ensures
        is_gone(item, src) <==> is_lost(item, src),
{
    if lookup(src, item.path) is Some {
        let i = lookup_is_somewhere(src, item.path);
        if !is_lost(item, src) {
            let k = choose|k: int|
                0 <= k < src.len() && parts((#[trigger] src[k]).path) == parts(item.path)
                    && alike(src[k].entry.kind, item.entry.kind);
            lookup_at(src, k, item.path);
        }
        if !is_gone(item, src) {
            assert(parts(src[i].path) == parts(item.path));
            assert(alike(src[i].entry.kind, item.entry.kind));
        }
    } else if !is_lost(item, src) {
        let k = choose|k: int|
            0 <= k < src.len() && parts((#[trigger] src[k]).path) == parts(item.path) && alike(
                src[k].entry.kind,
                item.entry.kind,
            );
        lookup_at(src, k, item.path);
    }
}

/// Counting what goes counts the entries of the target that do not stay.
pub proof fn every_lost_entry_is_counted(source: &Tree, dest: &Tree, count: usize)
    requires
        source.wf(),
        call_ensures(count_gone, (source, dest), count),
    ensures
        count == dest@.filter(|d: Item| is_lost(d, source@)).len(),
{
    source.is_sorted();
    lemma_lost_filter(source@);
}

proof fn lemma_lost_filter(src: Seq<Item>)
    requires
        ascending(paths_of(src)),
    ensures
        (|d: Item| is_lost(d, src)) == (|d: Item| is_gone(d, src)),
{
    assert forall|d: Item| is_lost(d, src) == #[trigger] is_gone(d, src) by {
        lemma_lost(src, d);
    }
    assert((|d: Item| is_lost(d, src)) =~= (|d: Item| is_gone(d, src)));
}

/// A run tells how many entries go from the target: all that do not stay, or,
/// where deletions are held back, those in the way of a source entry of another
/// type and what lies in them.
pub proof fn runs_tell_what_goes(
    source: &Tree,
    dest: &Tree,
    tol: i64,
    forced: &PathSet,
    unreadable: usize,
    ignore_errors: bool,
    plan: Prepared,
)
    requires
        source.wf(),
        dest.wf(),
        call_ensures(
            prepare,
            (source, dest, tol, forced, unreadable, ignore_errors),
            Some(plan),
        ),
    ensures
        plan.held_back is None ==> plan.removed == dest@.filter(
            |d: Item| is_lost(d, source@),
        ).len(),
        plan.held_back is Some ==> plan.removed == dest@.filter(
            |d: Item|
                is_lost(d, source@) && (is_recorded(source@, d.path) || goes_with_a_conflict(
                    source@,
                    dest@,
                    d.path,
                )),
        ).len(),
        plan.removed == 0 ==> plan.stats.delete_count == 0,
{
    let src = source@;
    let dst = dest@;
    source.is_sorted();
    dest.is_sorted();
    lemma_lost_filter(src);
    let p = |d: Item|
        is_lost(d, src) && (is_recorded(src, d.path) || goes_with_a_conflict(src, dst, d.path));
    let q = |d: Item| is_gone(d, src) && !is_stale(d, src, dst);
    assert forall|d: Item| #[trigger] p(d) == q(d) by {
        lemma_lost(src, d);
        lemma_recorded(src, d.path);
        lemma_with_a_conflict(src, dst, d.path);
    }
    assert(p =~= q);
}

proof fn lemma_recorded(src: Seq<Item>, path: Seq<u8>)
    requires
        ascending(paths_of(src)),
    ensures
        is_recorded(src, path) <==> lookup(src, path) is Some,
{
    if is_recorded(src, path) {
        let k = choose|k: int|
            0 <= k < src.len() && parts((#[trigger] src[k]).path) == parts(path);
        lookup_at(src, k, path);
    }
    if lookup(src, path) is Some {
        let k = lookup_is_somewhere(src, path);
        assert(parts(src[k].path) == parts(path));
    }
}

proof fn lemma_with_a_conflict(src: Seq<Item>, dst: Seq<Item>, path: Seq<u8>)
    requires
        ascending(paths_of(src)),
        ascending(paths_of(dst)),
    ensures
        lies_under(conflicts(src, dst), path) <==> goes_with_a_conflict(src, dst, path),
{
    let list = conflicts(src, dst);
    filter_members(src, |i: Item| crate::plan::blocked(i.entry, lookup(dst, i.path)));
    if lies_under(list, path) {
        let t = choose|t: int| 0 <= t < list.len() && is_above((#[trigger] list[t]).path, path);
        assert(list.contains(list[t]));
        let i = choose|i: int| 0 <= i < src.len() && src[i] == list[t];
        let k = lookup_is_somewhere(dst, src[i].path);
        assert(parts(src[i].path) == parts(dst[k].path) && !alike(
            src[i].entry.kind,
            dst[k].entry.kind,
        ));
    }
    if goes_with_a_conflict(src, dst, path) {
        let (i, k) = choose|i: int, k: int|
            0 <= i < src.len() && 0 <= k < dst.len() && parts((#[trigger] src[i]).path) == parts(
                (#[trigger] dst[k]).path,
            ) && !alike(src[i].entry.kind, dst[k].entry.kind) && is_above(src[i].path, path);
        lookup_at(dst, k, src[i].path);
        assert(src.contains(src[i]));
        assert(list.contains(src[i]));
        let t = choose|t: int| 0 <= t < list.len() && list[t] == src[i];
        assert(is_above(list[t].path, path));
    }
}

/// A run can be planned exactly if the bytes to be copied can be summed up.
pub proof fn runs_can_be_planned_unless_too_large(
    source: &Tree,
    dest: &Tree,
    tol: i64,
    forced: &PathSet,
    unreadable: usize,
    ignore_errors: bool,
    plan: Option<Prepared>,
)
    requires
        call_ensures(prepare, (source, dest, tol, forced, unreadable, ignore_errors), plan),
    ensures
        plan is Some <==> crate::agreement::bytes_of(planned(source@, dest@, tol, forced@))
            <= u64::MAX,
{
    crate::agreement::bytes_are_those_of_the_copies(source@, dest@, tol, forced@);
}

} // verus!
