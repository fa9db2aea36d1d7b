//! Carrying out a plan.
//!
//! [`Execution`] hands out the work of a plan stage by stage, keeps count of
//! failures, and decides whether anything may be deleted. The program does the
//! work and reports what failed.

use crate::agreement::{actions_run_in_order, named, phase_of};
use crate::filter::Filter;
use crate::path::{
    depth, join_of, parent_drops_last_part, parent_of, parts, root_comes_first, strip_of,
    PartView, UnixPath,
};
use crate::picks::filter_step;
use crate::plan::{action_views, gap, planned, times_within, Action, ActionView};
use crate::scan::filtered;
use crate::tree::{
    ascending, found_at, holds, paths_of, raws, with_paths, with_paths_holds_the_list, Item,
    PathSet,
};
use vstd::prelude::*;

verus! {

/// Callback invoked after each copied file chunk (for progress reporting).
pub trait ProgressSink: Sync {
    fn add_bytes(&self, n: u64);

    fn set_current(&self, name: &str);

    fn inc_files(&self);
}

/// A sink that ignores everything.
pub struct NullSink;

impl ProgressSink for NullSink {
    fn add_bytes(&self, _n: u64) {
    }

    fn set_current(&self, _name: &str) {
    }

    fn inc_files(&self) {
    }
}

// ---------------------------------------------------------------------------
// Errors
// ---------------------------------------------------------------------------

/// Maximum number of stored error messages. The total count keeps rising
/// independently: this prevents unbounded memory when, say, a read-only target
/// makes millions of actions fail.
pub const MAX_STORED_ERRORS: usize = 100;

/// The texts of a list of messages.
pub open spec fn messages(list: Seq<String>) -> Seq<Seq<char>> {
    list.map_values(|s: String| s@)
}

/// The stored messages once one more error has come.
pub open spec fn stored(list: Seq<Seq<char>>, msg: Seq<char>) -> Seq<Seq<char>> {
    if list.len() < MAX_STORED_ERRORS {
        list.push(msg)
    } else if list.len() == MAX_STORED_ERRORS {
        list.push("... further errors suppressed"@)
    } else {
        list
    }
}

/// The stored messages once all these errors have come.
pub open spec fn stored_all(all: Seq<Seq<char>>) -> Seq<Seq<char>>
    decreases all.len(),
{
    if all.len() == 0 {
        Seq::empty()
    } else {
        stored(stored_all(all.drop_last()), all.last())
    }
}

/// Stores an error message, as long as there is room for it.
pub fn record_error(errors: &mut Vec<String>, msg: String)
    ensures
        messages(final(errors)@) == stored(messages(old(errors)@), msg@),
{
    let ghost before = errors@;
    if errors.len() < MAX_STORED_ERRORS {
        errors.push(msg);
        assert(messages(errors@) =~= messages(before).push(msg@));
    } else if errors.len() == MAX_STORED_ERRORS {
        let last = String::from_str("... further errors suppressed");
        errors.push(last);
        assert(messages(errors@) =~= messages(before).push(last@));
    }
}

/// However many errors come, the first ones are stored, and at most one line
/// behind them says that there were more.
pub proof fn error_list_is_bounded(all: Seq<Seq<char>>)
    ensures
        stored_all(all) == if all.len() <= MAX_STORED_ERRORS {
            all
        } else {
            all.take(MAX_STORED_ERRORS as int).push("... further errors suppressed"@)
        },
        stored_all(all).len() <= MAX_STORED_ERRORS + 1,
    decreases all.len(),
{
    if all.len() > 0 {
        let rest = all.drop_last();
        error_list_is_bounded(rest);
        if all.len() <= MAX_STORED_ERRORS {
            assert(rest.push(all.last()) =~= all);
        } else {
            assert(rest.take(MAX_STORED_ERRORS as int) =~= all.take(MAX_STORED_ERRORS as int));
            if all.len() == MAX_STORED_ERRORS + 1 {
                assert(rest.take(MAX_STORED_ERRORS as int) =~= rest);
            }
        }
    }
}

// ---------------------------------------------------------------------------
// Options and report
// ---------------------------------------------------------------------------

/// Runtime options of an execution.
#[derive(Debug, Clone, Copy)]
pub struct ExecOptions {
    /// Copy parallelism (0 = automatic, based on the target volume).
    pub jobs: usize,
    /// Write every file with fsync before the rename.
    pub fsync: bool,
    /// Delete even when actions failed beforehand.
    pub ignore_errors: bool,
}

impl Default for ExecOptions {
    fn default() -> (opts: Self)
        ensures
            opts == (ExecOptions { jobs: 0, fsync: false, ignore_errors: false }),
    {
        ExecOptions { jobs: 0, fsync: false, ignore_errors: false }
    }
}

/// Result of an execution run.
#[derive(Debug, PartialEq, Eq, Structural)]
pub struct ExecReport {
    /// Number of failed actions.
    pub failed: u64,
    /// Deletions that were skipped because of earlier errors.
    pub skipped_deletes: u64,
}

impl Default for ExecReport {
    fn default() -> (report: Self)
        ensures
            report == (ExecReport { failed: 0, skipped_deletes: 0 }),
    {
        ExecReport { failed: 0, skipped_deletes: 0 }
    }
}

// ---------------------------------------------------------------------------
// Tasks
// ---------------------------------------------------------------------------

/// The contents of a [`Task`].
pub enum TaskView {
    RemoveAny { target: Seq<u8> },
    CreateDir { target: Seq<u8> },
    Copy { rel: Seq<u8>, from: Seq<u8>, to: Seq<u8> },
    Link { text: Seq<u8>, at: Seq<u8>, mtime: i64 },
    SetMode { target: Seq<u8>, mode: u32 },
    SyncDir { dir: Seq<u8> },
    RemoveFile { target: Seq<u8> },
    RemoveDir { target: Seq<u8> },
    SetDirMeta { target: Seq<u8>, mtime: i64, mode: u32 },
}

/// One piece of work on the disk.
#[derive(Debug)]
pub enum Task {
    /// Remove the target, whatever its type, unless it holds something
    /// excluded.
    RemoveAny { target: UnixPath },
    /// Create a directory, with its parents.
    CreateDir { target: UnixPath },
    /// Copy a file.
    Copy { rel: UnixPath, from: UnixPath, to: UnixPath },
    /// Create a symlink at `at` that holds `text`, replacing what stands there
    /// unless that holds something excluded.
    Link { text: UnixPath, at: UnixPath, mtime: i64 },
    /// Set the permissions of a file.
    SetMode { target: UnixPath, mode: u32 },
    /// Make what was created in a directory durable.
    SyncDir { dir: UnixPath },
    /// Remove a file or symlink.
    RemoveFile { target: UnixPath },
    /// Remove a directory with all that it holds, unless it holds something
    /// excluded.
    RemoveDir { target: UnixPath },
    /// Set mtime, then permissions of a directory.
    SetDirMeta { target: UnixPath, mtime: i64, mode: u32 },
}

impl View for Task {
    type V = TaskView;

    open spec fn view(&self) -> TaskView {
        match self {
            Task::RemoveAny { target } => TaskView::RemoveAny { target: target@ },
            Task::CreateDir { target } => TaskView::CreateDir { target: target@ },
            Task::Copy { rel, from, to } => TaskView::Copy { rel: rel@, from: from@, to: to@ },
            Task::Link { text, at, mtime } => TaskView::Link {
                text: text@,
                at: at@,
                mtime: *mtime,
            },
            Task::SetMode { target, mode } => TaskView::SetMode { target: target@, mode: *mode },
            Task::SyncDir { dir } => TaskView::SyncDir { dir: dir@ },
            Task::RemoveFile { target } => TaskView::RemoveFile { target: target@ },
            Task::RemoveDir { target } => TaskView::RemoveDir { target: target@ },
            Task::SetDirMeta { target, mtime, mode } => TaskView::SetDirMeta {
                target: target@,
                mtime: *mtime,
                mode: *mode,
            },
        }
    }
}

/// The contents of a list of tasks.
pub open spec fn task_views(list: Seq<Task>) -> Seq<TaskView> {
    list.map_values(|t: Task| t@)
}

/// The work that an action stands for, below these roots.
pub open spec fn task_for(source: Seq<u8>, dest: Seq<u8>, action: ActionView) -> TaskView {
    match action {
        ActionView::RemoveConflict(rel) => TaskView::RemoveAny { target: join_of(dest, rel) },
        ActionView::CreateDir(rel) => TaskView::CreateDir { target: join_of(dest, rel) },
        ActionView::Copy { rel, .. } => TaskView::Copy {
            rel,
            from: join_of(source, rel),
            to: join_of(dest, rel),
        },
        ActionView::CreateSymlink { rel, target, mtime } => TaskView::Link {
            text: target,
            at: join_of(dest, rel),
            mtime,
        },
        ActionView::SetFileMeta { rel, mode } => TaskView::SetMode {
            target: join_of(dest, rel),
            mode,
        },
        ActionView::DeleteFile(rel) => TaskView::RemoveFile { target: join_of(dest, rel) },
        ActionView::DeleteDir(rel) => TaskView::RemoveDir { target: join_of(dest, rel) },
        ActionView::SetDirMeta { rel, mtime, mode } => TaskView::SetDirMeta {
            target: join_of(dest, rel),
            mtime,
            mode,
        },
    }
}

fn make_task(source: &UnixPath, dest: &UnixPath, action: &Action) -> (task: Task)
    ensures
        task@ == task_for(source@, dest@, action@),
{
    match action {
        Action::RemoveConflict(rel) => Task::RemoveAny { target: dest.join(rel) },
        Action::CreateDir(rel) => Task::CreateDir { target: dest.join(rel) },
        Action::Copy { rel, .. } => Task::Copy {
            rel: rel.duplicate(),
            from: source.join(rel),
            to: dest.join(rel),
        },
        Action::CreateSymlink { rel, target, mtime } => Task::Link {
            text: target.duplicate(),
            at: dest.join(rel),
            mtime: *mtime,
        },
        Action::SetFileMeta { rel, mode } => Task::SetMode { target: dest.join(rel), mode: *mode },
        Action::DeleteFile(rel) => Task::RemoveFile { target: dest.join(rel) },
        Action::DeleteDir(rel) => Task::RemoveDir { target: dest.join(rel) },
        Action::SetDirMeta { rel, mtime, mode } => Task::SetDirMeta {
            target: dest.join(rel),
            mtime: *mtime,
            mode: *mode,
        },
    }
}

/// What a failure of the task is called.
pub open spec fn failure_label(task: TaskView) -> Seq<char> {
    match task {
        TaskView::RemoveAny { .. } => "remove conflict "@,
        TaskView::CreateDir { .. } => "mkdir "@,
        TaskView::Copy { .. } => "copy "@,
        TaskView::Link { .. } => "symlink "@,
        TaskView::SetMode { .. } => "set file meta "@,
        TaskView::SyncDir { .. } => "fsync dir "@,
        TaskView::RemoveFile { .. } => "rm "@,
        TaskView::RemoveDir { .. } => "rmdir "@,
        TaskView::SetDirMeta { .. } => "set dir meta "@,
    }
}

/// The path that a failure of the task is reported with: the relative path for
/// a copy, the path in the target for all others.
pub open spec fn reported_path(task: TaskView) -> Seq<u8> {
    match task {
        TaskView::RemoveAny { target } => target,
        TaskView::CreateDir { target } => target,
        TaskView::Copy { rel, .. } => rel,
        TaskView::Link { at, .. } => at,
        TaskView::SetMode { target, .. } => target,
        TaskView::SyncDir { dir } => dir,
        TaskView::RemoveFile { target } => target,
        TaskView::RemoveDir { target } => target,
        TaskView::SetDirMeta { target, .. } => target,
    }
}

impl Task {
    /// The path that a failure of the task is reported with.
    pub fn reported(&self) -> (path: &UnixPath)
        ensures
            path@ == reported_path(self@),
    {
        match self {
            Task::RemoveAny { target } => target,
            Task::CreateDir { target } => target,
            Task::Copy { rel, .. } => rel,
            Task::Link { at, .. } => at,
            Task::SetMode { target, .. } => target,
            Task::SyncDir { dir } => dir,
            Task::RemoveFile { target } => target,
            Task::RemoveDir { target } => target,
            Task::SetDirMeta { target, .. } => target,
        }
    }

    /// The message for a failure of the task. `shown` is the reported path as
    /// it is displayed, `error` the text of the error.
    pub fn failure(&self, shown: &str, error: &str) -> (text: String)
        ensures
            text@ == failure_label(self@) + shown@ + ": "@ + error@,
    {
        let label = match self {
            Task::RemoveAny { .. } => "remove conflict ",
            Task::CreateDir { .. } => "mkdir ",
            Task::Copy { .. } => "copy ",
            Task::Link { .. } => "symlink ",
            Task::SetMode { .. } => "set file meta ",
            Task::SyncDir { .. } => "fsync dir ",
            Task::RemoveFile { .. } => "rm ",
            Task::RemoveDir { .. } => "rmdir ",
            Task::SetDirMeta { .. } => "set dir meta ",
        };
        let mut text = String::from_str(label);
        text.append(shown);
        text.append(": ");
        text.append(error);
        text
    }
}

// ---------------------------------------------------------------------------
// Directories to be made durable
// ---------------------------------------------------------------------------

/// The action creates an entry.
pub open spec fn creates(action: ActionView) -> bool {
    action is Copy || action is CreateSymlink || action is CreateDir
}

/// The directory in the target whose entries the action changes, as a list of
/// one or none. Deletions are left out: if a deleted entry reappears after a
/// crash, the next run removes it again, and that is not data loss.
pub open spec fn dir_changed_by(dest: Seq<u8>, action: ActionView) -> Seq<Seq<u8>> {
    if creates(action) {
        match parent_of(join_of(dest, named(action))) {
            Some(parent) => seq![parent],
            None => Seq::empty(),
        }
    } else {
        Seq::empty()
    }
}

/// The directories in the target whose entries the actions change, in their
/// order.
pub open spec fn dirs_changed(dest: Seq<u8>, actions: Seq<ActionView>) -> Seq<Seq<u8>>
    decreases actions.len(),
{
    if actions.len() == 0 {
        Seq::empty()
    } else {
        dirs_changed(dest, actions.drop_last()) + dir_changed_by(dest, actions.last())
    }
}

/// Directories whose entries are changed by `actions`.
///
/// With `--fsync` these directories have to be synchronized themselves:
/// syncing the temp file only makes its *contents* durable, and the subsequent
/// rename is a directory update. Without an fsync on the directory, a copied
/// file can be missing after a power loss.
pub fn dirs_to_sync(dest_root: &UnixPath, actions: &[Action]) -> (dirs: PathSet)
    ensures
        dirs@ == with_paths(dirs_changed(dest_root@, action_views(actions@))),
        ascending(dirs@),
{
    let ghost all = action_views(actions@);
    let mut dirs = PathSet::new();
    let mut i: usize = 0;
    assert(all.take(0) =~= Seq::<ActionView>::empty());
    assert(dirs@ =~= with_paths(dirs_changed(dest_root@, all.take(0))));
    while i < actions.len()
        invariant
            i <= actions@.len(),
            all == action_views(actions@),
            ascending(dirs@),
            dirs@ == with_paths(dirs_changed(dest_root@, all.take(i as int))),
        decreases actions@.len() - i,
    {
        let ghost at = i as int;
        let ghost before = dirs_changed(dest_root@, all.take(at));
        assert(all.take(at + 1).drop_last() =~= all.take(at));
        assert(all.take(at + 1).last() == actions@[at]@);
        let rel = match &actions[i] {
            Action::Copy { rel, .. } => Some(rel),
            Action::CreateSymlink { rel, .. } => Some(rel),
            Action::CreateDir(rel) => Some(rel),
            _ => None,
        };
        assert(before + Seq::<Seq<u8>>::empty() =~= before);
        if let Some(rel) = rel {
            if let Some(parent) = dest_root.join(rel).parent() {
                let ghost raw = parent@;
                assert((before + seq![raw]).drop_last() =~= before);
                assert((before + seq![raw]).last() == raw);
                dirs.insert(parent);
            }
        }
        i += 1;
    }
    assert(all.take(all.len() as int) =~= all);
    dirs
}

/// A directory is made durable exactly if some action creates an entry in it,
/// and each directory once.
pub proof fn changed_dirs_are_synced_once(dest: Seq<u8>, actions: Seq<ActionView>, dir: Seq<u8>)
    ensures
        ascending(with_paths(dirs_changed(dest, actions))),
        holds(with_paths(dirs_changed(dest, actions)), dir) <==> holds(
            dirs_changed(dest, actions),
            dir,
        ),
        holds(dirs_changed(dest, actions), dir) <==> exists|k: int|
            0 <= k < actions.len() && holds(dir_changed_by(dest, #[trigger] actions[k]), dir),
    decreases actions.len(),
{
    let list = dirs_changed(dest, actions);
    with_paths_holds_the_list(list);
    if actions.len() == 0 {
        assert forall|i: int| !found_at(list, i, dir) by {}
    } else {
        let rest = actions.drop_last();
        let a = dirs_changed(dest, rest);
        let b = dir_changed_by(dest, actions.last());
        changed_dirs_are_synced_once(dest, rest, dir);
        assert(holds(a + b, dir) <==> holds(a, dir) || holds(b, dir)) by {
            if holds(a, dir) {
                let i = choose|i: int| found_at(a, i, dir);
                assert(found_at(a + b, i, dir));
            }
            if holds(b, dir) {
                let i = choose|i: int| found_at(b, i, dir);
                assert(found_at(a + b, a.len() + i, dir));
            }
            if holds(a + b, dir) {
                let i = choose|i: int| found_at(a + b, i, dir);
                if i < a.len() {
                    assert(found_at(a, i, dir));
                } else {
                    assert(found_at(b, i - a.len(), dir));
                }
            }
        }
        if holds(a, dir) {
            let k = choose|k: int|
                0 <= k < rest.len() && holds(dir_changed_by(dest, #[trigger] rest[k]), dir);
            assert(actions[k] == rest[k]);
        }
        if holds(b, dir) {
            assert(holds(dir_changed_by(dest, actions[actions.len() - 1]), dir));
        }
        if exists|k: int|
            0 <= k < actions.len() && holds(dir_changed_by(dest, #[trigger] actions[k]), dir) {
            let k = choose|k: int|
                0 <= k < actions.len() && holds(dir_changed_by(dest, #[trigger] actions[k]), dir);
            if k < rest.len() {
                assert(rest[k] == actions[k]);
            }
        }
    }
}

// ---------------------------------------------------------------------------
// Stages
// ---------------------------------------------------------------------------

/// The stages of an execution, in their order.
#[derive(Debug, Clone, Copy, PartialEq, Eq, Structural)]
pub enum Stage {
    /// Remove type conflicts on the target (file/dir/symlink of the wrong
    /// type) so that nothing collides with them afterwards.
    Conflicts,
    /// Create directories, one after the other.
    Dirs,
    /// Copy files, in parallel.
    Copies,
    /// Create symlinks, one after the other.
    Links,
    /// Align the permissions of files whose contents are unchanged. This
    /// changes no directory mtimes.
    Modes,
    /// With `--fsync`, synchronize the changed directories themselves. Without
    /// that, a renamed file does not survive a power loss: it would be written
    /// in full but its directory entry would not.
    SyncDirs,
    /// Deletes, files before directories.
    Deletes,
    /// Set directory metadata, deepest first.
    DirMetas,
    /// All is done.
    Over,
}

/// The stage with this number.
pub open spec fn stage_at(n: int) -> Stage {
    if n == 0 {
        Stage::Conflicts
    } else if n == 1 {
        Stage::Dirs
    } else if n == 2 {
        Stage::Copies
    } else if n == 3 {
        Stage::Links
    } else if n == 4 {
        Stage::Modes
    } else if n == 5 {
        Stage::SyncDirs
    } else if n == 6 {
        Stage::Deletes
    } else if n == 7 {
        Stage::DirMetas
    } else {
        Stage::Over
    }
}

/// The actions of some phases, in their order.
pub open spec fn of_phases(actions: Seq<ActionView>, low: int, high: int) -> Seq<ActionView> {
    actions.filter(|a: ActionView| low <= phase_of(a) <= high)
}

/// The work for each of the actions, in their order.
pub open spec fn work_for_all(source: Seq<u8>, dest: Seq<u8>, actions: Seq<ActionView>) -> Seq<
    TaskView,
> {
    actions.map_values(|a: ActionView| task_for(source, dest, a))
}

/// The work that the actions of some phases stand for, in their order.
pub open spec fn work_of(
    source: Seq<u8>,
    dest: Seq<u8>,
    actions: Seq<ActionView>,
    low: int,
    high: int,
) -> Seq<TaskView> {
    work_for_all(source, dest, of_phases(actions, low, high))
}

/// The work of making directories durable.
pub open spec fn sync_work(dirs: Seq<Seq<u8>>) -> Seq<TaskView> {
    dirs.map_values(|dir: Seq<u8>| TaskView::SyncDir { dir })
}

/// The work of stage `n`.
pub open spec fn stage_work(
    source: Seq<u8>,
    dest: Seq<u8>,
    actions: Seq<ActionView>,
    fsync: bool,
    n: int,
) -> Seq<TaskView> {
    if n == 5 {
        if fsync {
            sync_work(with_paths(dirs_changed(dest, actions)))
        } else {
            Seq::empty()
        }
    } else if n == 6 {
        work_of(source, dest, actions, 5, 6)
    } else {
        work_of(source, dest, actions, n, n)
    }
}

fn phase_number(action: &Action) -> (n: u8)
    ensures
        n == phase_of(action@),
{
    match action {
        Action::RemoveConflict(_) => 0,
        Action::CreateDir(_) => 1,
        Action::Copy { .. } => 2,
        Action::CreateSymlink { .. } => 3,
        Action::SetFileMeta { .. } => 4,
        Action::DeleteFile(_) => 5,
        Action::DeleteDir(_) => 6,
        Action::SetDirMeta { .. } => 7,
    }
}

fn collect_work(source: &UnixPath, dest: &UnixPath, actions: &[Action], low: u8, high: u8) -> (out:
    Vec<Task>)
    ensures
        task_views(out@) == work_of(
            source@,
            dest@,
            action_views(actions@),
            low as int,
            high as int,
        ),
{
    let ghost all = action_views(actions@);
    let ghost p = |a: ActionView| low as int <= phase_of(a) <= high as int;
    let ghost f = |a: ActionView| task_for(source@, dest@, a);
    let mut out: Vec<Task> = Vec::new();
    let mut i: usize = 0;
    proof {
        reveal(Seq::filter);
        assert(all.take(0) =~= Seq::<ActionView>::empty());
        assert(task_views(out@) =~= all.take(0).filter(p).map_values(f));
    }
    while i < actions.len()
        invariant
            i <= actions@.len(),
            all == action_views(actions@),
            p == (|a: ActionView| low as int <= phase_of(a) <= high as int),
            f == (|a: ActionView| task_for(source@, dest@, a)),
            task_views(out@) == all.take(i as int).filter(p).map_values(f),
        decreases actions@.len() - i,
    {
        let ghost at = i as int;
        proof {
            filter_step(all, at, p);
        }
        assert(all[at] == actions@[at]@);
        let n = phase_number(&actions[i]);
        if low <= n && n <= high {
            let ghost before = out@;
            let task = make_task(source, dest, &actions[i]);
            out.push(task);
            assert(task_views(out@) =~= task_views(before).push(task@));
            assert(all.take(at).filter(p).push(all[at]).map_values(f) =~= all.take(at).filter(
                p,
            ).map_values(f).push(f(all[at])));
        }
        i += 1;
    }
    assert(all.take(all.len() as int) =~= all);
    out
}

fn collect_syncs(dirs: &PathSet) -> (out: Vec<Task>)
    ensures
        task_views(out@) == sync_work(dirs@),
{
    let mut out: Vec<Task> = Vec::new();
    let n = dirs.len();
    let mut i: usize = 0;
    while i < n
        invariant
            i <= n == dirs@.len(),
            task_views(out@) == sync_work(dirs@.take(i as int)),
        decreases n - i,
    {
        let ghost before = out@;
        let task = Task::SyncDir { dir: dirs.path_at(i).duplicate() };
        out.push(task);
        assert(task_views(out@) =~= task_views(before).push(task@));
        assert(sync_work(dirs@.take(i + 1)) =~= sync_work(dirs@.take(i as int)).push(task@));
        i += 1;
    }
    assert(dirs@.take(n as int) =~= dirs@);
    out
}

/// How many messages are stored of so many errors.
pub open spec fn stored_count(failures: nat) -> nat {
    if failures <= MAX_STORED_ERRORS {
        failures
    } else {
        (MAX_STORED_ERRORS + 1) as nat
    }
}

/// The tasks that failed, and the messages as far as they are stored.
#[derive(Debug)]
struct Failures {
    count: u64,
    errors: Vec<String>,
}

/// A plan while it is carried out.
#[derive(Debug)]
pub struct Execution {
    work: Vec<Vec<Task>>,
    at: usize,
    ignore_errors: bool,
    skipped_deletes: u64,
    failures: Failures,
}

impl Execution {
    /// There is work for each stage, and a message for each failure, but for
    /// those that are left out.
    #[verifier::type_invariant]
    pub closed spec fn wf(self) -> bool {
        &&& self.work@.len() == 8
        &&& self.at <= 8
        &&& self.failures.errors@.len() == stored_count(self.failures.count as nat)
    }

    /// There are as many stored messages as failures, until the messages are
    /// capped. So there is a message if and only if something failed.
    pub proof fn errors_are_counted(self)
        requires
            self.wf(),
        ensures
            self.log().len() == stored_count(self.failures() as nat),
    {
    }

    /// The number of the current stage.
    pub closed spec fn number(self) -> int {
        self.at as int
    }

    /// The work of stage `n`.
    pub closed spec fn work(self, n: int) -> Seq<TaskView> {
        task_views(self.work@[n]@)
    }

    /// Whether deletions run whatever failed before.
    pub closed spec fn deletes_anyway(self) -> bool {
        self.ignore_errors
    }

    /// How many tasks failed so far.
    pub closed spec fn failures(self) -> u64 {
        self.failures.count
    }

    /// How many deletions were skipped.
    pub closed spec fn skipped(self) -> u64 {
        self.skipped_deletes
    }

    /// The stored error messages.
    pub closed spec fn log(self) -> Seq<Seq<char>> {
        messages(self.failures.errors@)
    }

    /// Only the stage, the failures and the messages differ.
    pub open spec fn same_work(self, other: Execution) -> bool {
        &&& forall|n: int| 0 <= n < 8 ==> #[trigger] self.work(n) == other.work(n)
        &&& self.deletes_anyway() == other.deletes_anyway()
    }

    /// Going on leads from the one to the other. Deletions are skipped if
    /// something failed before them, unless errors are to be ignored.
    pub open spec fn leads_to(self, next: Execution) -> bool {
        let skip = self.number() == 5 && self.failures() > 0 && !self.deletes_anyway();
        &&& next.same_work(self)
        &&& next.failures() == self.failures()
        &&& next.log() == self.log()
        &&& next.number() == self.number() + if skip {
            2int
        } else {
            1int
        }
        &&& next.skipped() == if skip {
            self.work(6).len()
        } else {
            self.skipped() as nat
        }
    }

    /// Sorts the actions into stages.
    pub fn new(
        source_root: &UnixPath,
        dest_root: &UnixPath,
        actions: &[Action],
        opts: ExecOptions,
    ) -> (run: Execution)
        ensures
            run.number() == 0,
            run.failures() == 0,
            run.skipped() == 0,
            run.log() == Seq::<Seq<char>>::empty(),
            run.deletes_anyway() == opts.ignore_errors,
            forall|n: int|
                0 <= n < 8 ==> #[trigger] run.work(n) == stage_work(
                    source_root@,
                    dest_root@,
                    action_views(actions@),
                    opts.fsync,
                    n,
                ),
    {
        let mut work: Vec<Vec<Task>> = Vec::new();
        work.push(collect_work(source_root, dest_root, actions, 0, 0));
        work.push(collect_work(source_root, dest_root, actions, 1, 1));
        work.push(collect_work(source_root, dest_root, actions, 2, 2));
        work.push(collect_work(source_root, dest_root, actions, 3, 3));
        work.push(collect_work(source_root, dest_root, actions, 4, 4));
        let syncs = if opts.fsync {
            collect_syncs(&dirs_to_sync(dest_root, actions))
        } else {
            let none: Vec<Task> = Vec::new();
            assert(task_views(none@) =~= Seq::<TaskView>::empty());
            none
        };
        work.push(syncs);
        work.push(collect_work(source_root, dest_root, actions, 5, 6));
        work.push(collect_work(source_root, dest_root, actions, 7, 7));
        let run = Execution {
            work,
            at: 0,
            ignore_errors: opts.ignore_errors,
            skipped_deletes: 0,
            failures: Failures { count: 0, errors: Vec::new() },
        };
        assert(run.log() =~= Seq::<Seq<char>>::empty());
        run
    }

    /// The current stage.
    pub fn stage(&self) -> (stage: Stage)
        ensures
            stage == stage_at(self.number()),
            0 <= self.number() <= 8,
    {
        proof {
            use_type_invariant(self);
        }
        match self.at {
            0 => Stage::Conflicts,
            1 => Stage::Dirs,
            2 => Stage::Copies,
            3 => Stage::Links,
            4 => Stage::Modes,
            5 => Stage::SyncDirs,
            6 => Stage::Deletes,
            7 => Stage::DirMetas,
            _ => Stage::Over,
        }
    }

    /// The work of the current stage.
    pub fn tasks(&self) -> (list: &Vec<Task>)
        requires
            self.number() < 8,
        ensures
            task_views(list@) == self.work(self.number()),
    {
        proof {
            use_type_invariant(self);
        }
        &self.work[self.at]
    }

    /// Takes in that a task of the current stage failed. Errors are collected,
    /// not fatal.
    pub fn task_failed(&mut self, message: String)
        ensures
            final(self).same_work(*old(self)),
            final(self).number() == old(self).number(),
            final(self).skipped() == old(self).skipped(),
            final(self).failures() == if old(self).failures() < u64::MAX {
                old(self).failures() + 1
            } else {
                u64::MAX as int
            },
            final(self).log() == stored(old(self).log(), message@),
    {
        proof {
            use_type_invariant(&*self);
        }
        let mut failures = Failures { count: 0, errors: Vec::new() };
        std::mem::swap(&mut self.failures, &mut failures);
        let ghost before = failures.errors@;
        record_error(&mut failures.errors, message);
        assert(messages(failures.errors@).len() == failures.errors@.len());
        assert(messages(before).len() == before.len());
        failures.count = failures.count.saturating_add(1);
        self.failures = failures;
    }

    /// Goes on to the next stage.
    ///
    /// If something failed before the deletes, the mirror is incomplete: then
    /// nothing may be removed in the target. A file whose source could not be
    /// read right now may be the only remaining reachable version in the
    /// target; deleting it would be the worst possible outcome.
    pub fn advance(&mut self)
        requires
            old(self).number() < 8,
        ensures
            old(self).leads_to(*final(self)),
    {
        proof {
            use_type_invariant(&*self);
        }
        if self.at == 5 && self.failures.count > 0 && !self.ignore_errors {
            self.skipped_deletes = self.work[6].len() as u64;
            self.at = 7;
        } else {
            self.at = self.at + 1;
        }
    }

    /// The figures of the run.
    pub fn report(&self) -> (report: ExecReport)
        ensures
            report == (ExecReport {
                failed: self.failures(),
                skipped_deletes: self.skipped(),
            }),
    {
        ExecReport { failed: self.failures.count, skipped_deletes: self.skipped_deletes }
    }

    /// The stored error messages.
    pub fn errors(&self) -> (list: &Vec<String>)
        ensures
            messages(list@) == self.log(),
            list@.len() == stored_count(self.failures() as nat),
    {
        proof {
            use_type_invariant(self);
        }
        &self.failures.errors
    }
}

/// The phases of the actions ascend.
pub open spec fn in_phases(actions: Seq<ActionView>) -> bool {
    forall|i: int, j: int|
        #![trigger actions[i], actions[j]]
        0 <= i < j < actions.len() ==> phase_of(actions[i]) <= phase_of(actions[j])
}

/// In a list whose phases ascend, what comes up to a phase is what comes before
/// it, followed by the phase itself.
proof fn lemma_phase_behind(actions: Seq<ActionView>, m: int, n: int)
    requires
        in_phases(actions),
        m <= n,
    ensures
        of_phases(actions, 0, n) == of_phases(actions, 0, m - 1) + of_phases(actions, m, n),
    decreases actions.len(),
{
    reveal(Seq::filter);
    let p = |a: ActionView| 0 <= phase_of(a) <= n;
    let q = |a: ActionView| 0 <= phase_of(a) <= m - 1;
    let r = |a: ActionView| m <= phase_of(a) <= n;
    if actions.len() == 0 {
        assert(actions.filter(q) + actions.filter(r) =~= actions.filter(p));
    } else {
        let rest = actions.drop_last();
        let last = actions.last();
        assert forall|i: int, j: int|
            #![trigger rest[i], rest[j]]
            0 <= i < j < rest.len() implies phase_of(rest[i]) <= phase_of(rest[j]) by {
            assert(rest[i] == actions[i] && rest[j] == actions[j]);
        }
        lemma_phase_behind(rest, m, n);
        if phase_of(last) < m {
            assert forall|i: int| 0 <= i < rest.len() implies !r(#[trigger] rest[i]) by {
                assert(rest[i] == actions[i]);
                assert(actions[actions.len() - 1] == last);
            }
            lemma_nothing_passes(rest, r);
            assert(actions.filter(q) + actions.filter(r) =~= (rest.filter(q) + rest.filter(
                r,
            )).push(last));
        } else if phase_of(last) <= n {
            assert(actions.filter(q) + actions.filter(r) =~= (rest.filter(q) + rest.filter(
                r,
            )).push(last));
        }
    }
}

proof fn lemma_nothing_passes(actions: Seq<ActionView>, p: spec_fn(ActionView) -> bool)
    requires
        forall|i: int| 0 <= i < actions.len() ==> !p(#[trigger] actions[i]),
    ensures
        actions.filter(p) == Seq::<ActionView>::empty(),
    decreases actions.len(),
{
    reveal(Seq::filter);
    if actions.len() > 0 {
        let rest = actions.drop_last();
        assert(forall|i: int| 0 <= i < rest.len() ==> rest[i] == actions[i]);
        lemma_nothing_passes(rest, p);
        assert(!p(actions[actions.len() - 1]));
    }
}

proof fn lemma_all_pass(actions: Seq<ActionView>, p: spec_fn(ActionView) -> bool)
    requires
        forall|i: int| 0 <= i < actions.len() ==> p(#[trigger] actions[i]),
    ensures
        actions.filter(p) == actions,
    decreases actions.len(),
{
    reveal(Seq::filter);
    if actions.len() > 0 {
        let rest = actions.drop_last();
        assert(forall|i: int| 0 <= i < rest.len() ==> rest[i] == actions[i]);
        lemma_all_pass(rest, p);
        assert(p(actions[actions.len() - 1]));
        assert(rest.push(actions.last()) =~= actions);
    }
}

proof fn lemma_work_sum(source: Seq<u8>, dest: Seq<u8>, a: Seq<ActionView>, b: Seq<ActionView>)
    ensures
        work_for_all(source, dest, a + b) == work_for_all(source, dest, a) + work_for_all(
            source,
            dest,
            b,
        ),
{
    assert(work_for_all(source, dest, a + b) =~= work_for_all(source, dest, a) + work_for_all(
        source,
        dest,
        b,
    ));
}

/// The work of all stages one after the other, but for making directories
/// durable.
pub open spec fn staged_work(
    source: Seq<u8>,
    dest: Seq<u8>,
    actions: Seq<ActionView>,
    fsync: bool,
    n: nat,
) -> Seq<TaskView>
    decreases n,
{
    if n == 0 {
        Seq::empty()
    } else {
        let before = staged_work(source, dest, actions, fsync, (n - 1) as nat);
        if n - 1 == 5 {
            before
        } else {
            before + stage_work(source, dest, actions, fsync, n - 1)
        }
    }
}

/// The first stages take up the actions of the first phases.
proof fn lemma_stages_follow(
    source: Seq<u8>,
    dest: Seq<u8>,
    actions: Seq<ActionView>,
    fsync: bool,
    n: nat,
)
    requires
        in_phases(actions),
        n <= 8,
    ensures
        staged_work(source, dest, actions, fsync, n) == work_for_all(
            source,
            dest,
            of_phases(
                actions,
                0,
                if n == 6 {
                    4
                } else {
                    n - 1
                },
            ),
        ),
    decreases n,
{
    if n == 0 {
        lemma_nothing_passes(actions, |a: ActionView| 0 <= phase_of(a) <= -1);
        assert(work_for_all(source, dest, of_phases(actions, 0, -1)) =~= Seq::<TaskView>::empty());
    } else {
        lemma_stages_follow(source, dest, actions, fsync, (n - 1) as nat);
        if n == 7 {
            lemma_phase_behind(actions, 5, 6);
            lemma_work_sum(source, dest, of_phases(actions, 0, 4), of_phases(actions, 5, 6));
        } else if n != 6 {
            lemma_phase_behind(actions, n - 1, n - 1);
            lemma_work_sum(
                source,
                dest,
                of_phases(actions, 0, n - 2),
                of_phases(actions, n - 1, n - 1),
            );
        }
    }
}

/// Stage by stage, an execution takes up the actions of a plan in exactly the
/// order of the plan. (Making directories durable comes in between, before
/// anything is deleted.)
pub proof fn execution_follows_the_plan(
    source: Seq<u8>,
    dest: Seq<u8>,
    actions: Seq<ActionView>,
    fsync: bool,
)
    requires
        in_phases(actions),
    ensures
        staged_work(source, dest, actions, fsync, 8) == work_for_all(source, dest, actions),
{
    lemma_stages_follow(source, dest, actions, fsync, 8);
    lemma_all_pass(actions, |a: ActionView| 0 <= phase_of(a) <= 7);
    assert(of_phases(actions, 0, 7) == actions);
}

/// Neither the parallelism nor `--fsync` changes what is carried out: all stages
/// but the one that makes directories durable hand out the same work, so that
/// together they hand out exactly the work of the actions.
pub proof fn options_do_not_change_the_work(
    source: Seq<u8>,
    dest: Seq<u8>,
    actions: Seq<ActionView>,
    a: Execution,
    fsync_a: bool,
    b: Execution,
    fsync_b: bool,
)
    requires
        in_phases(actions),
        forall|n: int|
            0 <= n < 8 ==> #[trigger] a.work(n) == stage_work(source, dest, actions, fsync_a, n),
        forall|n: int|
            0 <= n < 8 ==> #[trigger] b.work(n) == stage_work(source, dest, actions, fsync_b, n),
    ensures
        forall|n: int| 0 <= n < 8 && n != 5 ==> #[trigger] a.work(n) == b.work(n),
        forall|n: int, k: int|
            0 <= n < 8 && 0 <= k < a.work(n).len() ==> ((#[trigger] a.work(n)[k]) is SyncDir <==> n
                == 5),
        staged_work(source, dest, actions, fsync_a, 8) == work_for_all(source, dest, actions),
        staged_work(source, dest, actions, fsync_b, 8) == work_for_all(source, dest, actions),
{
    execution_follows_the_plan(source, dest, actions, fsync_a);
    execution_follows_the_plan(source, dest, actions, fsync_b);
    assert forall|n: int| 0 <= n < 8 && n != 5 implies #[trigger] a.work(n) == b.work(n) by {
        assert(a.work(n) == stage_work(source, dest, actions, fsync_a, n));
        assert(b.work(n) == stage_work(source, dest, actions, fsync_b, n));
    }
    assert forall|n: int, k: int|
        0 <= n < 8 && 0 <= k < a.work(n).len() implies ((#[trigger] a.work(n)[k]) is SyncDir <==> n
        == 5) by {
        assert(a.work(n) == stage_work(source, dest, actions, fsync_a, n));
    }
}

/// An execution in which nothing fails goes through all stages, and reports no
/// failure and no skipped deletion, whatever its options.
pub proof fn undisturbed_executions_skip_nothing(runs: Seq<Execution>)
    requires
        runs.len() > 0,
        runs[0].number() == 0,
        runs[0].failures() == 0,
        runs[0].skipped() == 0,
        forall|i: int|
            #![trigger runs[i]]
            0 <= i < runs.len() - 1 ==> runs[i].leads_to(runs[i + 1]),
    ensures
        runs.last().number() == runs.len() - 1,
        runs.last().failures() == 0,
        runs.last().skipped() == 0,
        runs.last().log() == runs[0].log(),
        runs.last().same_work(runs[0]),
    decreases runs.len(),
{
    if runs.len() > 1 {
        let rest = runs.drop_last();
        assert forall|i: int|
            #![trigger rest[i]]
            0 <= i < rest.len() - 1 implies rest[i].leads_to(rest[i + 1]) by {
            assert(rest[i] == runs[i] && rest[i + 1] == runs[i + 1]);
        }
        undisturbed_executions_skip_nothing(rest);
        let k = runs.len() - 2;
        assert(rest.last() == runs[k]);
        assert(runs[k].leads_to(runs[k + 1]));
    }
}

/// The actions of a plan stand in the order in which the stages take them up.
pub proof fn plans_are_in_phases(src: Seq<Item>, dst: Seq<Item>, tol: i64, forced: Seq<Seq<u8>>)
    requires
        ascending(paths_of(src)),
        ascending(paths_of(dst)),
    ensures
        in_phases(planned(src, dst, tol, forced)),
{
    let plan = planned(src, dst, tol, forced);
    assert forall|i: int, j: int|
        #![trigger plan[i], plan[j]]
        0 <= i < j < plan.len() implies phase_of(plan[i]) <= phase_of(plan[j]) by {
        actions_run_in_order(src, dst, tol, forced, i, j);
    }
}

// ---------------------------------------------------------------------------
// Single pieces of work
// ---------------------------------------------------------------------------

/// One of the paths below `root` is excluded.
pub open spec fn some_filtered(filter: Filter, root: Seq<u8>, paths: Seq<UnixPath>) -> bool {
    exists|i: int|
        0 <= i < paths.len() && (strip_of((#[trigger] paths[i])@, root) matches Some(rel)
            && filtered(filter, rel))
}

/// True when one of the paths below `root` is excluded. Whatever holds an
/// excluded entry must not be removed as a whole.
pub fn holds_excluded(filter: &Filter, root: &UnixPath, paths: &Vec<UnixPath>) -> (held: bool)
    ensures
        held == exists|i: int|
            0 <= i < paths@.len() && (strip_of((#[trigger] paths@[i])@, root@) matches Some(rel)
                && filtered(*filter, rel)),
        held == some_filtered(*filter, root@, paths@),
{
    let mut i: usize = 0;
    while i < paths.len()
        invariant
            i <= paths@.len(),
            forall|k: int|
                0 <= k < i ==> !(strip_of((#[trigger] paths@[k])@, root@) matches Some(rel)
                    && filtered(*filter, rel)),
        decreases paths@.len() - i,
    {
        if let Some(rel) = paths[i].strip_prefix(root) {
            if filter.excludes(&rel) {
                assert(strip_of(paths@[i as int]@, root@) == Some(rel@));
                return true;
            }
        }
        i += 1;
    }
    false
}

/// How an entry has to be removed.
#[derive(Debug, Clone, Copy, PartialEq, Eq, Structural)]
pub enum Removal {
    /// With all that it holds.
    Tree,
    /// On its own: a file, or a symlink and not its target.
    Entry,
    /// Not at all: it is a directory that holds something excluded.
    Refused,
}

/// How an entry has to be removed, whatever its type.
pub fn removal(is_dir: bool, holds_excluded: bool) -> (way: Removal)
    ensures
        way == if !is_dir {
            Removal::Entry
        } else if holds_excluded {
            Removal::Refused
        } else {
            Removal::Tree
        },
{
    if !is_dir {
        Removal::Entry
    } else if holds_excluded {
        Removal::Refused
    } else {
        Removal::Tree
    }
}

/// How a task went.
#[derive(Debug, Clone, Copy, PartialEq, Eq, Structural)]
pub enum TaskEnd {
    Done,
    /// A removal was refused, because it would take something excluded along.
    Refused,
    Error,
}

/// What follows from how a task went.
#[derive(Debug, Clone, Copy, PartialEq, Eq, Structural)]
pub enum TaskVerdict {
    /// It is done.
    Done,
    /// It is done, and one more file or symlink is finished.
    FileDone,
    /// The directory stays, which is not a failure.
    DirKept,
    /// It failed.
    Failed,
}

impl Task {
    /// What follows from how the task went. A file counts as finished once its
    /// copy or link succeeded. An extraneous directory that holds something
    /// excluded stays; in all other cases a refused removal is a failure.
    pub fn verdict(&self, end: TaskEnd) -> (verdict: TaskVerdict)
        ensures
            verdict == match end {
                TaskEnd::Done => if self@ is Copy || self@ is Link {
                    TaskVerdict::FileDone
                } else {
                    TaskVerdict::Done
                },
                TaskEnd::Refused => if self@ is RemoveDir {
                    TaskVerdict::DirKept
                } else {
                    TaskVerdict::Failed
                },
                TaskEnd::Error => TaskVerdict::Failed,
            },
    {
        match end {
            TaskEnd::Done => match self {
                Task::Copy { .. } => TaskVerdict::FileDone,
                Task::Link { .. } => TaskVerdict::FileDone,
                _ => TaskVerdict::Done,
            },
            TaskEnd::Refused => match self {
                Task::RemoveDir { .. } => TaskVerdict::DirKept,
                _ => TaskVerdict::Failed,
            },
            TaskEnd::Error => TaskVerdict::Failed,
        }
    }

    /// The place in the target that the task works on.
    pub open spec fn place(self) -> Seq<u8> {
        match self@ {
            TaskView::RemoveAny { target } => target,
            TaskView::CreateDir { target } => target,
            TaskView::Copy { to, .. } => to,
            TaskView::Link { at, .. } => at,
            TaskView::SetMode { target, .. } => target,
            TaskView::SyncDir { dir } => dir,
            TaskView::RemoveFile { target } => target,
            TaskView::RemoveDir { target } => target,
            TaskView::SetDirMeta { target, .. } => target,
        }
    }

    /// The directories that the task goes through below `root`: those on the
    /// way to its place, and the place itself where the task is about a
    /// directory that has to stay.
    pub open spec fn goes_through(self, root: Seq<u8>, dirs: Seq<Seq<u8>>) -> bool {
        if self@ is CreateDir || self@ is SetDirMeta {
            dirs.len() > 0 && dirs.last() == self.place() && is_way(
                root,
                self.place(),
                dirs.drop_last(),
            )
        } else {
            is_way(root, self.place(), dirs)
        }
    }

    /// The directories that the task goes through below `root`. None of them
    /// may be a symlink, or the task would be led out of the target.
    pub fn way(&self, root: &UnixPath) -> (dirs: Vec<UnixPath>)
        ensures
            self.goes_through(root@, raws(dirs@)),
    {
        match self {
            Task::CreateDir { target } | Task::SetDirMeta { target, .. } => {
                let mut dirs = way_to(root, target);
                let ghost before = dirs@;
                let copy = target.duplicate();
                dirs.push(copy);
                assert(raws(dirs@) =~= raws(before).push(copy@));
                assert(raws(dirs@).drop_last() =~= raws(before));
                dirs
            },
            Task::RemoveAny { target } => way_to(root, target),
            Task::Copy { to, .. } => way_to(root, to),
            Task::Link { at, .. } => way_to(root, at),
            Task::SetMode { target, .. } => way_to(root, target),
            Task::SyncDir { dir } => way_to(root, dir),
            Task::RemoveFile { target } => way_to(root, target),
            Task::RemoveDir { target } => way_to(root, target),
        }
    }
}

/// The directories are those on the way from `root` to `place`, without the two
/// and deepest first.
pub open spec fn is_way(root: Seq<u8>, place: Seq<u8>, dirs: Seq<Seq<u8>>) -> bool {
    &&& dirs.len() == if depth(place) > depth(root) {
        depth(place) - depth(root) - 1
    } else {
        0
    }
    &&& forall|i: int|
        0 <= i < dirs.len() ==> parts(#[trigger] dirs[i]) == parts(place).take(
            depth(place) - 1 - i,
        )
}

fn way_to(root: &UnixPath, place: &UnixPath) -> (dirs: Vec<UnixPath>)
    ensures
        is_way(root@, place@, raws(dirs@)),
{
    let least = root.depth();
    let mut dirs: Vec<UnixPath> = Vec::new();
    let mut cur = place.duplicate();
    proof {
        assert(parts(place@).take(depth(place@) as int) =~= parts(place@));
        assert(raws(dirs@) =~= Seq::<Seq<u8>>::empty());
    }
    while cur.depth() > 0 && cur.depth() - 1 > least
        invariant
            least == depth(root@),
            dirs@.len() <= depth(place@),
            parts(cur@) == parts(place@).take(depth(place@) - dirs@.len()),
            dirs@.len() > 0 ==> depth(cur@) > least,
            forall|i: int|
                0 <= i < dirs@.len() ==> parts(#[trigger] raws(dirs@)[i]) == parts(place@).take(
                    depth(place@) - 1 - i,
                ),
        decreases depth(cur@),
    {
        match cur.parent() {
            Some(up) => {
                let ghost before = dirs@;
                proof {
                    parent_drops_last_part(cur@);
                    assert(parts(up@) =~= parts(place@).take(depth(place@) - 1 - before.len()));
                }
                let copy = up.duplicate();
                dirs.push(copy);
                cur = up;
                assert(raws(dirs@) =~= raws(before).push(cur@));
                assert forall|i: int| 0 <= i < dirs@.len() implies parts(
                    #[trigger] raws(dirs@)[i],
                ) == parts(place@).take(depth(place@) - 1 - i) by {
                    if i < before.len() {
                        assert(raws(dirs@)[i] == raws(before)[i]);
                    }
                }
            },
            None => {
                proof {
                    let last = depth(cur@) - 1;
                    if parts(cur@)[last] == PartView::Root {
                        root_comes_first(cur@, last);
                    }
                }
                return dirs;
            },
        }
    }
    dirs
}

/// What stands at a place, looked at without following a symlink there.
#[derive(Debug, Clone, Copy, PartialEq, Eq, Structural)]
pub enum Standing {
    Dir,
    /// Something else, such as a symlink.
    Other,
    Nothing,
}

/// No place is taken by something that is no directory.
pub open spec fn all_passable(places: Seq<Standing>) -> bool {
    forall|i: int| 0 <= i < places.len() ==> #[trigger] places[i] != Standing::Other
}

/// True when no place is taken by something that is no directory.
pub fn is_passable(places: &Vec<Standing>) -> (free: bool)
    ensures
        free == forall|i: int| 0 <= i < places@.len() ==> #[trigger] places@[i] != Standing::Other,
        free == all_passable(places@),
{
    let mut i: usize = 0;
    while i < places.len()
        invariant
            i <= places@.len(),
            forall|k: int| 0 <= k < i ==> #[trigger] places@[k] != Standing::Other,
        decreases places@.len() - i,
    {
        if places[i] == Standing::Other {
            return false;
        }
        i += 1;
    }
    true
}

/// What has to be done next while a symlink is created.
#[derive(Debug, Clone, Copy, PartialEq, Eq, Structural)]
pub enum LinkOp {
    /// Create the directory that is to hold the link, with its parents.
    CreateParent,
    /// Look whether something stands at the link's place.
    Probe,
    /// Remove what stands there.
    Remove,
    /// Create the link.
    Symlink,
    /// Set the mtime of the link itself, not of what it points to.
    SetTime,
    /// Nothing: the link is there.
    Created,
    /// Nothing: it could not be created.
    Failed,
}

/// How it went.
#[derive(Debug, Clone, Copy, PartialEq, Eq, Structural)]
pub enum LinkReply {
    Done,
    /// Something stands there, or nothing does.
    Occupied(bool),
    Error,
}

/// The reply can follow the request.
pub open spec fn link_fits(op: LinkOp, reply: LinkReply) -> bool {
    match op {
        LinkOp::Created | LinkOp::Failed => false,
        LinkOp::Probe => reply is Occupied,
        _ => reply is Done || reply is Error,
    }
}

/// The request that follows a reply.
pub open spec fn link_next(op: LinkOp, reply: LinkReply) -> LinkOp {
    if reply is Error {
        LinkOp::Failed
    } else {
        match op {
            LinkOp::CreateParent => LinkOp::Probe,
            LinkOp::Probe => if reply == LinkReply::Occupied(true) {
                LinkOp::Remove
            } else {
                LinkOp::Symlink
            },
            LinkOp::Remove => LinkOp::Symlink,
            LinkOp::Symlink => LinkOp::SetTime,
            LinkOp::SetTime => LinkOp::Created,
            _ => op,
        }
    }
}

/// The first request for creating a symlink at `at`. An existing entry there is
/// removed beforehand.
pub fn link_start(at: &UnixPath) -> (op: LinkOp)
    ensures
        op == if parent_of(at@) is Some {
            LinkOp::CreateParent
        } else {
            LinkOp::Probe
        },
{
    match at.parent() {
        Some(_) => LinkOp::CreateParent,
        None => LinkOp::Probe,
    }
}

/// The request that follows a reply.
pub fn link_step(op: LinkOp, reply: LinkReply) -> (next: LinkOp)
    requires
        link_fits(op, reply),
    ensures
        next == link_next(op, reply),
{
    match reply {
        LinkReply::Error => {
            return LinkOp::Failed;
        },
        _ => {},
    }
    match op {
        LinkOp::CreateParent => LinkOp::Probe,
        LinkOp::Probe => match reply {
            LinkReply::Occupied(true) => LinkOp::Remove,
            _ => LinkOp::Symlink,
        },
        LinkOp::Remove => LinkOp::Symlink,
        LinkOp::Symlink => LinkOp::SetTime,
        LinkOp::SetTime => LinkOp::Created,
        LinkOp::Created => LinkOp::Created,
        LinkOp::Failed => LinkOp::Failed,
    }
}

/// How many requests can still follow.
pub open spec fn link_left(op: LinkOp) -> nat {
    match op {
        LinkOp::CreateParent => 5,
        LinkOp::Probe => 4,
        LinkOp::Remove => 3,
        LinkOp::Symlink => 2,
        LinkOp::SetTime => 1,
        LinkOp::Created => 0,
        LinkOp::Failed => 0,
    }
}

/// Creating a link comes to an end, and its mtime is set after it was created.
pub proof fn links_come_to_an_end(op: LinkOp, reply: LinkReply)
    requires
        link_fits(op, reply),
    ensures
        link_left(link_next(op, reply)) < link_left(op),
        link_next(op, reply) is Created ==> op is SetTime && reply is Done,
        link_next(op, reply) is SetTime ==> op is Symlink && reply is Done,
{
}

/// What has to be done next while the metadata of a directory is set.
#[derive(Debug, Clone, Copy, PartialEq, Eq, Structural)]
pub enum MetaOp {
    /// Set the mtime.
    SetTime,
    /// Set the permissions.
    SetMode,
    /// Nothing: both are set.
    Finished,
    /// Nothing: one of them could not be set.
    Failed,
}

/// The request that follows one that went well or not. The mtime comes first:
/// setting it opens the directory, and a restrictive mode would lock us out of
/// our own target.
pub open spec fn meta_next(op: MetaOp, done: bool) -> MetaOp {
    match op {
        MetaOp::SetTime => if done {
            MetaOp::SetMode
        } else {
            MetaOp::Failed
        },
        MetaOp::SetMode => if done {
            MetaOp::Finished
        } else {
            MetaOp::Failed
        },
        _ => op,
    }
}

/// The first request for setting the metadata of a directory.
pub fn meta_start() -> (op: MetaOp)
    ensures
        op == MetaOp::SetTime,
{
    MetaOp::SetTime
}

/// The request that follows one that went well or not.
pub fn meta_step(op: MetaOp, done: bool) -> (next: MetaOp)
    ensures
        next == meta_next(op, done),
{
    match op {
        MetaOp::SetTime => if done {
            MetaOp::SetMode
        } else {
            MetaOp::Failed
        },
        MetaOp::SetMode => if done {
            MetaOp::Finished
        } else {
            MetaOp::Failed
        },
        MetaOp::Finished => MetaOp::Finished,
        MetaOp::Failed => MetaOp::Failed,
    }
}

/// The permissions of a directory are set only once its mtime is, and both are
/// set in the end unless one of them failed.
pub proof fn modes_are_set_after_times(op: MetaOp, done: bool)
    ensures
        op != MetaOp::SetMode && meta_next(op, done) is SetMode ==> op is SetTime && done,
        op != MetaOp::Finished && meta_next(op, done) is Finished ==> op is SetMode && done,
        meta_next(op, done) is Failed ==> op is Failed || !done,
{
}

// ---------------------------------------------------------------------------
// The root directories
// ---------------------------------------------------------------------------

/// Mtime and mode of a root directory.
#[derive(Debug, Clone, Copy)]
pub struct RootMeta {
    pub mtime: i64,
    /// Unix mode, file type included.
    pub mode: u32,
}

/// True when the mode or mtime of the two root directories differ.
///
/// Necessary so that pure metadata drift of the root does not pass as "nothing
/// to do": it produces no action at all and would otherwise persist forever. If
/// one side cannot be read (target missing in a dry run), that counts as a
/// difference.
pub fn root_meta_differs(source: Option<RootMeta>, dest: Option<RootMeta>, mtime_tol: i64) -> (
    differ: bool)
    ensures
        differ == match (source, dest) {
            (Some(s), Some(d)) => gap(s.mtime, d.mtime) > mtime_tol || s.mode & 0o7777 != d.mode
                & 0o7777,
            _ => true,
        },
{
    match (source, dest) {
        (Some(s), Some(d)) => !times_within(s.mtime, d.mtime, mtime_tol) || s.mode & 0o7777
            != d.mode & 0o7777,
        _ => true,
    }
}

// ---------------------------------------------------------------------------
// Parallelism
// ---------------------------------------------------------------------------

/// Picks a sensible default copy parallelism depending on the target volume.
///
/// Rotating HDDs have a physical write head: too many parallel writers cause
/// seek thrashing and are often slower than 1-2. SSDs, in contrast, benefit
/// from high parallelism. If the type cannot be determined, the more
/// conservative HDD value is chosen (safer for the expected use case of
/// "external disks").
pub fn default_copy_jobs(is_ssd: Option<bool>, parallelism: Option<usize>) -> (jobs: usize)
    ensures
        jobs == if is_ssd == Some(true) {
            match parallelism {
                Some(n) => n,
                None => 4,
            }
        } else {
            2
        },
        parallelism matches Some(n) ==> n >= 1 ==> jobs >= 1,
        parallelism is None ==> jobs >= 1,
{
    match is_ssd {
        Some(true) => match parallelism {
            Some(n) => n,
            None => 4,
        },
        // HDD or unknown: conservative, but enough for read/write pipelining.
        _ => 2,
    }
}

/// The parallelism that was asked for, or the automatic one.
pub fn effective_jobs(requested: usize, automatic: usize) -> (jobs: usize)
    ensures
        jobs == if requested > 0 {
            requested
        } else {
            automatic
        },
{
    if requested > 0 {
        requested
    } else {
        automatic
    }
}

} // verus!
