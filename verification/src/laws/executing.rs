//! How a plan is carried out.

use crate::laws::planning::near;
use crate::path::{depth, join_of, parent_of, parts, UnixPath};
use crate::plan::{action_views, Action, ActionView};
use crate::sync::{
    changed_dirs_are_synced_once, default_copy_jobs, dir_changed_by, dirs_to_sync, effective_jobs,
    execution_follows_the_plan, in_phases, is_passable, link_fits, link_start, link_step, messages,
    meta_start, meta_step, record_error, removal, root_meta_differs, stage_work, staged_work,
    task_for, task_views, work_for_all, ExecOptions, ExecReport, Execution, LinkOp, LinkReply,
    MetaOp, Removal, RootMeta, Stage, Standing, Task, TaskEnd, TaskVerdict, TaskView,
};
use crate::tree::{found_at, holds, raws, PathSet};
use vstd::prelude::*;

verus! {

// ---------------------------------------------------------------------------
// From actions to tasks
// ---------------------------------------------------------------------------

/// What an action asks for, below the roots: conflicts, files, directories and
/// links are removed or made in the target, a copy goes from the same path below
/// the source to the one below the target, and links, times and permissions are
/// those that the action carries.
pub proof fn tasks_do_what_actions_say(source: Seq<u8>, dest: Seq<u8>, action: ActionView)
    ensures
        ({
            let task = task_for(source, dest, action);
            &&& action matches ActionView::RemoveConflict(rel) ==> task == (TaskView::RemoveAny {
                target: join_of(dest, rel),
            })
            &&& action matches ActionView::CreateDir(rel) ==> task == (TaskView::CreateDir {
                target: join_of(dest, rel),
            })
            &&& action matches ActionView::Copy { rel, size } ==> task == (TaskView::Copy {
                rel,
                from: join_of(source, rel),
                to: join_of(dest, rel),
            })
            &&& action matches ActionView::CreateSymlink { rel, target, mtime } ==> task == (
            TaskView::Link { text: target, at: join_of(dest, rel), mtime })
            &&& action matches ActionView::SetFileMeta { rel, mode } ==> task == (
            TaskView::SetMode { target: join_of(dest, rel), mode })
            &&& action matches ActionView::DeleteFile(rel) ==> task == (TaskView::RemoveFile {
                target: join_of(dest, rel),
            })
            &&& action matches ActionView::DeleteDir(rel) ==> task == (TaskView::RemoveDir {
                target: join_of(dest, rel),
            })
            &&& action matches ActionView::SetDirMeta { rel, mtime, mode } ==> task == (
            TaskView::SetDirMeta { target: join_of(dest, rel), mtime, mode })
        }),
{
}

/// The stages in their order.
pub proof fn stages_are_in_order(run: &Execution, stage: Stage)
    requires
        call_ensures(Execution::stage, (run,), stage),
    ensures
        stage is Conflicts <==> run.number() == 0,
        stage is Dirs <==> run.number() == 1,
        stage is Copies <==> run.number() == 2,
        stage is Links <==> run.number() == 3,
        stage is Modes <==> run.number() == 4,
        stage is SyncDirs <==> run.number() == 5,
        stage is Deletes <==> run.number() == 6,
        stage is DirMetas <==> run.number() == 7,
        stage is Over <==> run.number() == 8,
{
}

/// An execution starts with nothing done, nothing failed and nothing skipped. Each
/// stage hands out tasks of its own kind only, and exactly those of the actions of
/// that kind: those of all stages together, but for making directories durable,
/// are the tasks of the actions, in their order.
pub proof fn executions_hand_out_the_plan(
    source: &UnixPath,
    dest: &UnixPath,
    actions: &[Action],
    opts: ExecOptions,
    run: Execution,
    n: int,
    k: int,
)
    requires
        call_ensures(Execution::new, (source, dest, actions, opts), run),
        0 <= n < 8,
        0 <= k < run.work(n).len(),
        in_phases(action_views(actions@)),
    ensures
        run.number() == 0,
        run.failures() == 0,
        run.skipped() == 0,
        run.log().len() == 0,
        run.deletes_anyway() == opts.ignore_errors,
        run.work(0) + run.work(1) + run.work(2) + run.work(3) + run.work(4) + run.work(6)
            + run.work(7) == action_views(actions@).map_values(
            |a: ActionView| task_for(source@, dest@, a),
        ),
        n == 0 <==> run.work(n)[k] is RemoveAny,
        n == 1 <==> run.work(n)[k] is CreateDir,
        n == 2 <==> run.work(n)[k] is Copy,
        n == 3 <==> run.work(n)[k] is Link,
        n == 4 <==> run.work(n)[k] is SetMode,
        n == 5 <==> run.work(n)[k] is SyncDir,
        n == 6 <==> run.work(n)[k] is RemoveFile || run.work(n)[k] is RemoveDir,
        n == 7 <==> run.work(n)[k] is SetDirMeta,
        !opts.fsync ==> n != 5,
{
    let all = action_views(actions@);
    let w = |n: int| stage_work(source@, dest@, all, opts.fsync, n);
    assert(run.work(n) == stage_work(source@, dest@, all, opts.fsync, n));
    execution_follows_the_plan(source@, dest@, all, opts.fsync);
    reveal_with_fuel(staged_work, 9);
    assert(run.work(0) == w(0));
    assert(run.work(1) == w(1));
    assert(run.work(2) == w(2));
    assert(run.work(3) == w(3));
    assert(run.work(4) == w(4));
    assert(run.work(6) == w(6));
    assert(run.work(7) == w(7));
    assert(Seq::<TaskView>::empty() + w(0) =~= w(0));
    assert(work_for_all(source@, dest@, all) == w(0) + w(1) + w(2) + w(3) + w(4) + w(6) + w(7));
    if n != 5 {
        let (low, high) = if n == 6 {
            (5int, 6int)
        } else {
            (n, n)
        };
        let some = crate::sync::of_phases(all, low, high);
        crate::picks::filter_members(
            all,
            |a: ActionView| low <= crate::agreement::phase_of(a) <= high,
        );
        assert(some.contains(some[k]));
        assert(run.work(n)[k] == task_for(source@, dest@, some[k]));
    }
}

/// The actions that carried out plans are made of, in the order in which they are
/// taken up.
pub proof fn phases_are_kinds_of_actions(a: ActionView, b: ActionView)
    ensures
        in_phases(seq![a, b]) <==> kind_number(a)
            <= kind_number(b),
{
    let list = seq![a, b];
    assert(list[0] == a && list[1] == b);
}

/// Conflicts, directories, copies, links, permissions, files to delete,
/// directories to delete, metadata of directories.
pub open spec fn kind_number(action: ActionView) -> int {
    match action {
        ActionView::RemoveConflict(_) => 0,
        ActionView::CreateDir(_) => 1,
        ActionView::Copy { .. } => 2,
        ActionView::CreateSymlink { .. } => 3,
        ActionView::SetFileMeta { .. } => 4,
        ActionView::DeleteFile(_) => 5,
        ActionView::DeleteDir(_) => 6,
        ActionView::SetDirMeta { .. } => 7,
    }
}

/// With `--fsync` a directory is made durable exactly if an action copies, links
/// or creates something directly in it.
pub proof fn directories_with_new_entries_are_synced(
    dest: &UnixPath,
    actions: &[Action],
    dirs: PathSet,
    dir: Seq<u8>,
)
    requires
        call_ensures(dirs_to_sync, (dest, actions), dirs),
    ensures
        holds(dirs@, dir) <==> exists|k: int, path: Seq<u8>|
            #![trigger actions@[k], join_of(dest@, path)]
            0 <= k < actions@.len() && adds_entry(actions@[k]@, path) && (parent_of(
                join_of(dest@, path),
            ) matches Some(up) && parts(up) == parts(dir)),
{
    let all = action_views(actions@);
    changed_dirs_are_synced_once(dest@, all, dir);
    if holds(dirs@, dir) {
        let k = choose|k: int|
            0 <= k < all.len() && holds(dir_changed_by(dest@, #[trigger] all[k]), dir);
        let one = dir_changed_by(dest@, all[k]);
        let i = choose|i: int| found_at(one, i, dir);
        let path = crate::agreement::named(all[k]);
        assert(all[k] == actions@[k]@);
        assert(adds_entry(actions@[k]@, path));
        let up = parent_of(join_of(dest@, path))->0;
        assert(parts(up) == parts(dir));
    }
    if exists|k: int, path: Seq<u8>|
        #![trigger actions@[k], join_of(dest@, path)]
        0 <= k < actions@.len() && adds_entry(actions@[k]@, path) && (parent_of(
            join_of(dest@, path),
        ) matches Some(up) && parts(up) == parts(dir)) {
        let (k, path) = choose|k: int, path: Seq<u8>|
            #![trigger actions@[k], join_of(dest@, path)]
            0 <= k < actions@.len() && adds_entry(actions@[k]@, path) && (parent_of(
                join_of(dest@, path),
            ) matches Some(up) && parts(up) == parts(dir));
        assert(all[k] == actions@[k]@);
        let one = dir_changed_by(dest@, all[k]);
        assert(found_at(one, 0, dir));
        assert(holds(dir_changed_by(dest@, all[k]), dir));
    }
}

/// The action copies, links or creates something at `path`.
pub open spec fn adds_entry(action: ActionView, path: Seq<u8>) -> bool {
    match action {
        ActionView::CreateDir(rel) => rel == path,
        ActionView::Copy { rel, .. } => rel == path,
        ActionView::CreateSymlink { rel, .. } => rel == path,
        _ => false,
    }
}

// ---------------------------------------------------------------------------
// Failures
// ---------------------------------------------------------------------------

/// The stages follow on each other. Only the deletions are left out, and exactly if
/// something failed before them and errors are not ignored; then all of them
/// count as skipped.
pub proof fn failures_hold_deletions_back(run: &mut Execution)
    requires
        old(run).wf(),
        old(run).number() < 8,
        call_ensures(Execution::advance, (run,), ()),
    ensures
        ({
            let a = *old(run);
            let b = *final(run);
            let skip = a.number() == 5 && a.failures() > 0 && !a.deletes_anyway();
            &&& !skip ==> b.number() == a.number() + 1 && b.skipped() == a.skipped()
            &&& skip ==> b.number() == 7 && b.skipped() == a.work(6).len()
            &&& b.failures() == a.failures()
            &&& b.log() == a.log()
            &&& b.deletes_anyway() == a.deletes_anyway()
            &&& forall|n: int| 0 <= n < 8 ==> #[trigger] b.work(n) == a.work(n)
        }),
{
}

/// Every failure counts, changes nothing else, and leaves a message as long as
/// there is room: a hundred of them, and one line behind that says that there were
/// more. The report tells the true number.
pub proof fn failures_are_counted(
    run: &mut Execution,
    message: String,
    done: &Execution,
    report: ExecReport,
    list: &Vec<String>,
)
    requires
        old(run).wf(),
        call_ensures(Execution::task_failed, (run, message), ()),
        call_ensures(Execution::report, (done,), report),
        call_ensures(Execution::errors, (done,), list),
    ensures
        ({
            let a = *old(run);
            let b = *final(run);
            &&& a.failures() < u64::MAX ==> b.failures() == a.failures() + 1
            &&& b.number() == a.number() && b.skipped() == a.skipped()
            &&& b.deletes_anyway() == a.deletes_anyway()
            &&& a.log().len() < 100 ==> b.log() == a.log().push(message@)
            &&& a.log().len() == 100 ==> b.log().len() == 101 && b.log().drop_last() == a.log()
            &&& a.log().len() > 100 ==> b.log() == a.log()
        }),
        report.failed == done.failures(),
        report.skipped_deletes == done.skipped(),
        messages(list@) == done.log(),
        done.failures() <= 100 ==> list@.len() == done.failures(),
        done.failures() > 100 ==> list@.len() == 101,
{
    let a = *old(run);
    let b = *final(run);
    if a.log().len() == 100 {
        assert(b.log().drop_last() =~= a.log());
    }
}

/// Storing a message keeps those before it.
pub proof fn first_errors_are_kept(errors: &mut Vec<String>, msg: String)
    requires
        call_ensures(record_error, (errors, msg), ()),
    ensures
        ({
            let a = messages(old(errors)@);
            let b = messages(final(errors)@);
            &&& a.len() < 100 ==> b == a.push(msg@)
            &&& a.len() == 100 ==> b.len() == 101 && b.take(100) == a
            &&& a.len() > 100 ==> b == a
        }),
{
    let a = messages(old(errors)@);
    let b = messages(final(errors)@);
    if a.len() == 100 {
        assert(b.take(100) =~= a);
    }
}

/// A failed task is a failure, and so is a refused removal, but for an extraneous
/// directory, which stays. Copies and links that are done count as files.
pub proof fn tasks_end_as_they_went(task: &Task, end: TaskEnd, verdict: TaskVerdict)
    requires
        call_ensures(Task::verdict, (task, end), verdict),
    ensures
        verdict is Failed <==> end is Error || (end is Refused && !(task is RemoveDir)),
        verdict is DirKept <==> end is Refused && task is RemoveDir,
        verdict is FileDone <==> end is Done && (task is Copy || task is Link),
        verdict is Done <==> end is Done && !(task is Copy || task is Link),
{
}

/// A failure is reported with the path in the target, or for a copy with the path
/// below the roots, and its message holds that path and the error.
pub proof fn failures_tell_path_and_error(
    task: &Task,
    path: &UnixPath,
    shown: &str,
    error: &str,
    text: String,
)
    requires
        call_ensures(Task::reported, (task,), path),
        call_ensures(Task::failure, (task, shown, error), text),
    ensures
        path@ == match task {
            Task::Copy { rel, .. } => rel@,
            Task::Link { at, .. } => at@,
            Task::SyncDir { dir } => dir@,
            Task::RemoveAny { target } => target@,
            Task::CreateDir { target } => target@,
            Task::SetMode { target, .. } => target@,
            Task::RemoveFile { target } => target@,
            Task::RemoveDir { target } => target@,
            Task::SetDirMeta { target, .. } => target@,
        },
        text@.len() >= error@.len(),
        text@.skip(text@.len() - error@.len()) == error@,
        exists|label: Seq<char>| text@ == #[trigger] (label + shown@) + ": "@ + error@,
{
    let label = crate::sync::failure_label(task@);
    assert(text@ == (label + shown@) + ": "@ + error@);
    assert(text@.skip(text@.len() - error@.len()) =~= error@);
}

// ---------------------------------------------------------------------------
// Single pieces of work
// ---------------------------------------------------------------------------

/// A directory goes with all that it holds, unless it holds something excluded; all
/// else goes on its own.
pub proof fn only_directories_with_excluded_entries_stay(is_dir: bool, held: bool, way: Removal)
    requires
        call_ensures(removal, (is_dir, held), way),
    ensures
        way is Refused <==> is_dir && held,
        way is Tree <==> is_dir && !held,
        way is Entry <==> !is_dir,
{
}

/// Places can be passed exactly if none is taken by something that is no directory.
pub proof fn only_directories_are_passed(places: &Vec<Standing>, free: bool)
    requires
        call_ensures(is_passable, (places,), free),
    ensures
        !free <==> exists|i: int| 0 <= i < places@.len() && (#[trigger] places@[i]) is Other,
{
    assert(free == crate::sync::all_passable(places@));
    if !free {
        let i = choose|i: int| 0 <= i < places@.len() && #[trigger] places@[i] == Standing::Other;
        assert(places@[i] is Other);
    }
}

/// The directories that a task goes through are those between the root and its
/// place, the place itself included where the task needs a directory there.
pub proof fn ways_lead_through_every_directory(
    task: &Task,
    root: &UnixPath,
    dirs: Vec<UnixPath>,
    n: int,
)
    requires
        call_ensures(Task::way, (task, root), dirs),
        depth(root@) < n < depth(task.place()),
    ensures
        exists|i: int|
            0 <= i < dirs@.len() && parts((#[trigger] dirs@[i])@) == parts(task.place()).take(n),
        task is CreateDir || task is SetDirMeta ==> exists|i: int|
            0 <= i < dirs@.len() && (#[trigger] dirs@[i])@ == task.place(),
{
    let all = raws(dirs@);
    let place = task.place();
    let i = depth(place) - 1 - n;
    if task@ is CreateDir || task@ is SetDirMeta {
        let some = all.drop_last();
        assert(parts(some[i]) == parts(place).take(n));
        assert(dirs@[i]@ == some[i]);
        assert(dirs@[dirs@.len() - 1]@ == all.last());
    } else {
        assert(parts(all[i]) == parts(place).take(n));
        assert(dirs@[i]@ == all[i]);
    }
}

/// A task works on the place that it was given.
pub proof fn tasks_work_on_their_places(task: Task)
    ensures
        task.place() == match task {
            Task::Copy { to, .. } => to@,
            Task::Link { at, .. } => at@,
            Task::SyncDir { dir } => dir@,
            Task::RemoveAny { target } => target@,
            Task::CreateDir { target } => target@,
            Task::SetMode { target, .. } => target@,
            Task::RemoveFile { target } => target@,
            Task::RemoveDir { target } => target@,
            Task::SetDirMeta { target, .. } => target@,
        },
{
}

/// A link is made once the directory for it is there and its place is free: what
/// stands there is removed first. Its time is set after that, and any failure ends
/// it.
pub proof fn links_are_made_in_free_places(
    at: &UnixPath,
    first: LinkOp,
    op: LinkOp,
    reply: LinkReply,
    next: LinkOp,
)
    requires
        call_ensures(link_start, (at,), first),
        link_fits(op, reply),
        call_ensures(link_step, (op, reply), next),
    ensures
        first is CreateParent <==> parent_of(at@) is Some,
        first is Probe <==> parent_of(at@) is None,
        next is Failed <==> reply is Error,
        next is Probe <==> op is CreateParent && reply is Done,
        next is Remove <==> op is Probe && reply == LinkReply::Occupied(true),
        next is Symlink <==> (op is Probe && reply == LinkReply::Occupied(false)) || (op is Remove
            && reply is Done),
        next is SetTime <==> op is Symlink && reply is Done,
        next is Created <==> op is SetTime && reply is Done,
{
}

/// The time of a directory is set first, and its permissions once that went well.
pub proof fn times_are_set_before_modes(first: MetaOp, op: MetaOp, done: bool, next: MetaOp)
    requires
        call_ensures(meta_start, (), first),
        call_ensures(meta_step, (op, done), next),
        op is SetTime || op is SetMode,
    ensures
        first is SetTime,
        next is Failed <==> !done,
        next is SetMode <==> op is SetTime && done,
        next is Finished <==> op is SetMode && done,
{
}

/// Roots differ exactly if one of them cannot be read, their times lie too far apart
/// or their permission bits differ.
pub proof fn roots_are_compared_by_time_and_permissions(
    a: Option<RootMeta>,
    b: Option<RootMeta>,
    tol: i64,
    differ: bool,
)
    requires
        call_ensures(root_meta_differs, (a, b, tol), differ),
    ensures
        !differ <==> a is Some && b is Some && near(a->0.mtime, b->0.mtime, tol) && a->0.mode
            % 0o10000 == b->0.mode % 0o10000,
{
    if a is Some && b is Some {
        let m = a->0.mode;
        let n = b->0.mode;
        assert(m & 0o7777 == m % 0o10000) by (bit_vector);
        assert(n & 0o7777 == n % 0o10000) by (bit_vector);
    }
}

/// As many files are copied at a time as was asked for. Otherwise an SSD gets as
/// many as the machine runs at a time, or four if that is unknown, and any other
/// volume two.
pub proof fn parallelism_suits_the_volume(
    requested: usize,
    is_ssd: Option<bool>,
    parallelism: Option<usize>,
    automatic: usize,
    jobs: usize,
)
    requires
        call_ensures(default_copy_jobs, (is_ssd, parallelism), automatic),
        call_ensures(effective_jobs, (requested, automatic), jobs),
    ensures
        requested > 0 ==> jobs == requested,
        requested == 0 && is_ssd != Some(true) ==> jobs == 2,
        requested == 0 && is_ssd == Some(true) && parallelism is None ==> jobs == 4,
        requested == 0 && is_ssd == Some(true) && parallelism is Some ==> jobs == parallelism->0,
{
}

/// Without being told otherwise an execution picks its own parallelism, persists
/// nothing and holds deletions back after errors; a fresh report is empty.
pub proof fn defaults_are_careful(opts: ExecOptions, report: ExecReport)
    requires
        call_ensures(ExecOptions::default, (), opts),
        call_ensures(ExecReport::default, (), report),
    ensures
        opts.jobs == 0 && !opts.fsync && !opts.ignore_errors,
        report.failed == 0 && report.skipped_deletes == 0,
{
}

/// The tasks that are handed out are those of the current stage, and a task is seen as
/// it is.
pub proof fn stages_hand_out_their_tasks(run: &Execution, list: &Vec<Task>, k: int)
    requires
        run.number() < 8,
        call_ensures(Execution::tasks, (run,), list),
        0 <= k < list@.len(),
    ensures
        list@.len() == run.work(run.number()).len(),
        run.work(run.number())[k] == match list@[k] {
            Task::RemoveAny { target } => TaskView::RemoveAny { target: target@ },
            Task::CreateDir { target } => TaskView::CreateDir { target: target@ },
            Task::Copy { rel, from, to } => TaskView::Copy { rel: rel@, from: from@, to: to@ },
            Task::Link { text, at, mtime } => TaskView::Link { text: text@, at: at@, mtime },
            Task::SetMode { target, mode } => TaskView::SetMode { target: target@, mode },
            Task::SyncDir { dir } => TaskView::SyncDir { dir: dir@ },
            Task::RemoveFile { target } => TaskView::RemoveFile { target: target@ },
            Task::RemoveDir { target } => TaskView::RemoveDir { target: target@ },
            Task::SetDirMeta { target, mtime, mode } => TaskView::SetDirMeta {
                target: target@,
                mtime,
                mode,
            },
        },
{
    assert(task_views(list@)[k] == list@[k]@);
}

/// With `--fsync` an execution makes exactly those directories durable, one after the
/// other.
pub proof fn executions_sync_new_entries(
    source: &UnixPath,
    dest: &UnixPath,
    actions: &[Action],
    opts: ExecOptions,
    run: Execution,
    dirs: PathSet,
)
    requires
        opts.fsync,
        call_ensures(Execution::new, (source, dest, actions, opts), run),
        call_ensures(dirs_to_sync, (dest, actions), dirs),
    ensures
        run.work(5).len() == dirs@.len(),
        forall|k: int|
            0 <= k < dirs@.len() ==> (#[trigger] run.work(5)[k]) == (TaskView::SyncDir {
                dir: dirs@[k],
            }),
{
    let all = action_views(actions@);
    assert(run.work(5) == stage_work(source@, dest@, all, opts.fsync, 5));
}

/// The directories that a task goes through lie between the root and its place, or
/// are the place itself.
pub proof fn ways_lead_nowhere_else(task: &Task, root: &UnixPath, dirs: Vec<UnixPath>, i: int)
    requires
        call_ensures(Task::way, (task, root), dirs),
        0 <= i < dirs@.len(),
    ensures
        (task is CreateDir || task is SetDirMeta) && dirs@[i]@ == task.place() || (depth(root@)
            < depth(dirs@[i]@) < depth(task.place()) && parts(dirs@[i]@) == parts(
            task.place(),
        ).take(depth(dirs@[i]@) as int)),
{
    let all = raws(dirs@);
    let place = task.place();
    assert(all[i] == dirs@[i]@);
    if task@ is CreateDir || task@ is SetDirMeta {
        let some = all.drop_last();
        if i < some.len() {
            assert(parts(some[i]) == parts(place).take(depth(place) - 1 - i));
        }
    } else {
        assert(parts(all[i]) == parts(place).take(depth(place) - 1 - i));
    }
}

/// Looking whether a place is taken is answered by saying so, and all other requests for
/// a link by saying that they are done or failed.
pub proof fn link_requests_take_their_replies(op: LinkOp, reply: LinkReply)
    ensures
        link_fits(op, reply) <==> !(op is Created || op is Failed) && (op is Probe <==> reply
            is Occupied),
{
}

} // verus!
