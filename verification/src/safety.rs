//! The source is left alone.
//!
//! Everything that a run may write is listed here, step by step, together with
//! the law that none of it lies in the source. What is written is named by its
//! path below the resolved target; that no action is led elsewhere by a symlink
//! is the law `tried_actions_never_pass_through_links` of the disk model.

use crate::agreement::{actions_spell_paths_as_recorded, named};
use crate::path::{
    behind_cur_dir, depth, empty_path_has_no_parts, is_rooted, join_concatenates_parts, join_of,
    parent_drops_last_part, parent_of, parts, same_path, starts_with, PartView,
};
use crate::plan::{planned, ActionView};
use crate::resolve::{
    overlap_of, targets_are_created_outside_the_source, what_lies_below_the_target,
};
use crate::session::{
    check_passed, events_fit, held_back_plans_delete_nothing_extraneous,
    nothing_is_written_before_the_check, session_after, without_deletes, Event, Settings, Step,
};
use crate::temp::{holder, shown_name, temp_name, temp_names_are_plain};
use crate::tree::{ascending, paths_of, Item};
use vstd::prelude::*;

verus! {

/// The path names something below a directory: it is relative, has a name, and
/// no `..`.
pub open spec fn leads_down(rel: Seq<u8>) -> bool {
    &&& !is_rooted(rel)
    &&& behind_cur_dir(parts(rel)).len() > 0
    &&& !parts(rel).contains(PartView::ParentDir)
}

/// All paths of the tree do.
pub open spec fn all_lead_down(tree: Seq<Item>) -> bool {
    forall|i: int| 0 <= i < tree.len() ==> leads_down((#[trigger] tree[i]).path)
}

/// Creating, changing or removing what stands at `place` writes there, below it,
/// and to the directory that holds it.
pub open spec fn touches(place: Seq<u8>, path: Seq<u8>) -> bool {
    starts_with(path, place) || (parent_of(place) matches Some(up) && same_path(path, up))
}

/// The place of the temporary file for a copy to `place`.
pub open spec fn temp_place(pid: nat, seq: nat, place: Seq<u8>) -> Seq<u8> {
    join_of(holder(place), temp_name(pid, seq, shown_name(place)))
}

/// Carrying out the action below `dest` may write to `path`. A copy goes through
/// a temporary file.
pub open spec fn action_writes(
    dest: Seq<u8>,
    pid: nat,
    seq: nat,
    action: ActionView,
    path: Seq<u8>,
) -> bool {
    let place = join_of(dest, named(action));
    touches(place, path) || (action is Copy && touches(temp_place(pid, seq, place), path))
}

/// The step may write to `path`, with this plan.
pub open spec fn step_writes(
    step: Step,
    dest: Seq<u8>,
    pid: nat,
    seq: nat,
    plan: Seq<ActionView>,
    path: Seq<u8>,
) -> bool {
    match step {
        Step::CreateTarget => starts_with(dest, path),
        Step::Execute => exists|k: int|
            0 <= k < plan.len() && action_writes(dest, pid, seq, #[trigger] plan[k], path),
        Step::MirrorRoot => same_path(path, dest),
        _ => false,
    }
}

/// What an action may write lies below the target.
pub proof fn actions_write_below_the_target(
    dest: Seq<u8>,
    pid: nat,
    seq: nat,
    action: ActionView,
    path: Seq<u8>,
)
    requires
        dest.len() > 0,
        leads_down(named(action)),
        action_writes(dest, pid, seq, action, path),
    ensures
        starts_with(path, dest),
{
    let rel = named(action);
    let place = join_of(dest, rel);
    let d = depth(dest) as int;
    let tail = behind_cur_dir(parts(rel));
    join_concatenates_parts(dest, rel);
    assert(parts(place) == parts(dest) + tail);
    assert(parts(place).last() == tail.last());
    assert(tail.last() != PartView::Root) by {
        let n = depth(rel) as int;
        assert(tail.last() == parts(rel)[n - 1]);
        if parts(rel)[n - 1] == PartView::Root {
            crate::path::root_comes_first(rel, n - 1);
        }
    }
    parent_drops_last_part(place);
    let up = parent_of(place)->0;
    assert(parts(up) =~= parts(dest) + tail.drop_last());
    assert(parts(up).take(d) =~= parts(dest));
    assert(parts(place).take(d) =~= parts(dest));
    if starts_with(path, place) {
        assert(parts(path).take(d) =~= parts(path).take(depth(place) as int).take(d));
    }
    if action is Copy && touches(temp_place(pid, seq, place), path) {
        let name = temp_name(pid, seq, shown_name(place));
        let temp = temp_place(pid, seq, place);
        temp_names_are_plain(pid, seq, place);
        join_concatenates_parts(up, name);
        assert(holder(place) == up);
        assert(behind_cur_dir(parts(name)) =~= seq![PartView::Normal(name)]);
        assert(parts(up).len() == 0 ==> parts(up) + parts(name) =~= parts(name));
        if up.len() == 0 {
            empty_path_has_no_parts();
            assert(up =~= Seq::<u8>::empty());
        }
        assert(parts(temp) =~= parts(up).push(PartView::Normal(name)));
        parent_drops_last_part(temp);
        assert(parts(temp).drop_last() =~= parts(up));
        assert(parts(temp).take(d) =~= parts(dest));
        if starts_with(path, temp) {
            assert(parts(path).take(d) =~= parts(path).take(depth(temp) as int).take(d));
        }
    }
}

/// Whatever happens in the course of a run, whichever actions fail, and whether
/// it ends well or not: no step writes to the source. Before source and target
/// are known not to overlap nothing is written at all, and afterwards only the
/// target and what lies below it, temporary files included.
pub proof fn runs_leave_the_source_alone(
    settings: Settings,
    events: Seq<Event>,
    source: Seq<u8>,
    dest: Seq<u8>,
    src: Seq<Item>,
    dst: Seq<Item>,
    tol: i64,
    forced: Seq<Seq<u8>>,
    held_back: bool,
    pid: nat,
    seq: nat,
    path: Seq<u8>,
)
    requires
        events_fit(settings, events),
        (exists|k: int| #[trigger] check_passed(settings, events, k)) ==> overlap_of(
            source,
            dest,
        ) is None,
        dest.len() > 0,
        ascending(paths_of(src)),
        ascending(paths_of(dst)),
        all_lead_down(src),
        all_lead_down(dst),
        ({
            let all = planned(src, dst, tol, forced);
            let plan = if held_back {
                without_deletes(all)
            } else {
                all
            };
            step_writes(session_after(settings, events).step, dest, pid, seq, plan, path)
        }),
    ensures
        !starts_with(path, source),
{
    let all = planned(src, dst, tol, forced);
    let plan = if held_back {
        without_deletes(all)
    } else {
        all
    };
    let step = session_after(settings, events).step;
    nothing_is_written_before_the_check(settings, events);
    if step is CreateTarget {
        targets_are_created_outside_the_source(source, dest, path);
    } else if step is MirrorRoot {
        assert(parts(path).take(depth(dest) as int) =~= parts(dest));
        what_lies_below_the_target(source, dest, path);
    } else {
        let k = choose|k: int|
            0 <= k < plan.len() && action_writes(dest, pid, seq, #[trigger] plan[k], path);
        let i = if held_back {
            held_back_plans_delete_nothing_extraneous(all, k);
            choose|i: int| 0 <= i < all.len() && all[i] == plan[k]
        } else {
            k
        };
        actions_spell_paths_as_recorded(src, dst, tol, forced, i);
        actions_write_below_the_target(dest, pid, seq, plan[k], path);
        what_lies_below_the_target(source, dest, path);
    }
}

} // verus!
