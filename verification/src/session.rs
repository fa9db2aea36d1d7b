//! The course of a run, from the command line to the exit code.
//!
//! [`Session`] decides what comes next; the program does it and reports what
//! came of it. The laws at the end say when anything may be written at all.

use crate::agreement::{count, figures_count_the_actions};
use crate::losses::{count_gone, extraneous, gone, gone_anyway, losses_add_up};
use crate::picks::filter_step;
use crate::plan::{
    action_views, conflicts, diff_checked, plan_fits, planned, tally, Action, ActionView, Stats,
};
use crate::tree::{ascending, paths_of, Item, PathSet, Tree};
use vstd::prelude::*;

verus! {

/// What was asked for on the command line.
#[derive(Debug, Clone, Copy)]
pub struct Settings {
    /// Additional verification of contents.
    pub checksum: bool,
    /// Only show what would happen, change nothing.
    pub dry_run: bool,
    /// Skip the confirmation.
    pub yes: bool,
    /// Abort if more than so many entries would have to be deleted.
    pub max_delete: Option<u64>,
    /// Allow emptying the target when the source is empty.
    pub allow_empty_source: bool,
    /// Delete even when directories could not be read or copies failed.
    pub ignore_errors: bool,
}

// ---------------------------------------------------------------------------
// The plan of a run
// ---------------------------------------------------------------------------

/// The plan is incomplete, so that deleting is not defensible: whatever lies
/// below an unreadable directory would look like an extraneous target entry and
/// would be removed, even though the source does contain it, just unreadably.
pub open spec fn holds_back(unreadable: nat, ignore_errors: bool, extraneous: nat) -> bool {
    unreadable > 0 && !ignore_errors && extraneous > 0
}

/// The actions that delete extraneous target entries.
pub open spec fn deletes(action: ActionView) -> bool {
    action is DeleteFile || action is DeleteDir
}

/// The actions without those that delete extraneous target entries.
pub open spec fn without_deletes(actions: Seq<ActionView>) -> Seq<ActionView> {
    actions.filter(|a: ActionView| !deletes(a))
}

/// The figures of a plan with another number of deletions.
pub open spec fn with_delete_count(stats: Stats, delete_count: u64) -> Stats {
    Stats {
        copy_count: stats.copy_count,
        copy_bytes: stats.copy_bytes,
        delete_count,
        mkdir_count: stats.mkdir_count,
        skip_count: stats.skip_count,
        meta_count: stats.meta_count,
    }
}

/// Takes the deletions out of a list of actions.
pub fn drop_deletes(actions: Vec<Action>) -> (kept: Vec<Action>)
    ensures
        action_views(kept@) == without_deletes(action_views(actions@)),
{
    let ghost all = action_views(actions@);
    let ghost p = |a: ActionView| !deletes(a);
    let ghost whole = actions@;
    let mut kept: Vec<Action> = Vec::new();
    proof {
        reveal(Seq::filter);
        assert(all.take(0) =~= Seq::<ActionView>::empty());
        assert(action_views(kept@) =~= all.take(0).filter(p));
    }
    for action in it: actions
        invariant
            it.seq() == whole,
            all == action_views(whole),
            p == (|a: ActionView| !deletes(a)),
            action_views(kept@) == all.take(it.index() as int).filter(p),
    {
        let ghost k = it.index() as int;
        proof {
            filter_step(all, k, p);
        }
        assert(all[k] == action@);
        let keep = match &action {
            Action::DeleteFile(_) => false,
            Action::DeleteDir(_) => false,
            _ => true,
        };
        if keep {
            let ghost before = kept@;
            kept.push(action);
            assert(action_views(kept@) =~= action_views(before).push(action@));
        }
    }
    assert(all.take(all.len() as int) =~= all);
    kept
}

/// The plan of a run.
#[derive(Debug)]
pub struct Prepared {
    pub actions: Vec<Action>,
    pub stats: Stats,
    /// How many entries go from the target: extraneous ones, those in the way of
    /// a source entry, and what lies under the latter.
    pub removed: u64,
    /// How many planned deletions are skipped because directories were not
    /// readable.
    pub held_back: Option<u64>,
}

/// Plans a run. After an incomplete scan no extraneous entry is deleted, unless
/// errors are to be ignored. What is in the way of a source entry still has to
/// go, and counts as a deletion. Nothing where the figures of the plan cannot be
/// told.
#[verifier::spinoff_prover]
#[verifier::rlimit(40)]
pub fn prepare(
    source: &Tree,
    dest: &Tree,
    mtime_tol: i64,
    forced: &PathSet,
    unreadable: usize,
    ignore_errors: bool,
) -> (plan: Option<Prepared>)
    ensures
        plan is Some <==> plan_fits(source@, dest@, mtime_tol, forced@),
        plan matches Some(p) ==> {
            let all = planned(source@, dest@, mtime_tol, forced@);
            let stats = tally(source@, dest@, mtime_tol, forced@);
            let count = extraneous(source@, dest@);
            &&& p.stats.delete_count <= p.removed
            &&& p.stats.delete_count == 0 <==> p.removed == 0
            &&& if holds_back(unreadable as nat, ignore_errors, count) {
                &&& action_views(p.actions@) == without_deletes(all)
                &&& p.stats == with_delete_count(
                    stats,
                    conflicts(source@, dest@).len() as u64,
                )
                &&& p.held_back == Some(count as u64)
                &&& p.removed == gone_anyway(source@, dest@).len()
                &&& conflicts(source@, dest@).len() + count == stats.delete_count
            } else {
                &&& action_views(p.actions@) == all
                &&& p.stats == stats
                &&& p.held_back is None
                &&& p.removed == gone(source@, dest@).len()
            }
        },
{
    match diff_checked(source, dest, mtime_tol, forced) {
        Some((actions, stats)) => {
            proof {
                use_type_invariant(source);
                use_type_invariant(dest);
                source.is_sorted();
                dest.is_sorted();
                losses_add_up(source@, dest@);
                held_back_figures(source@, dest@, mtime_tol, forced@);
            }
            let removed = count_gone(source, dest) as u64;
            let plan = Prepared { actions, stats, removed, held_back: None };
            if unreadable > 0 && !ignore_errors {
                Some(hold_back(plan))
            } else {
                Some(plan)
            }
        },
        None => None,
    }
}

/// Takes the deletions of extraneous entries out of a plan, if it has any.
fn hold_back(plan: Prepared) -> (less: Prepared)
    requires
        plan.held_back is None,
        action_views(plan.actions@).len() - without_deletes(action_views(plan.actions@)).len()
            <= plan.stats.delete_count <= plan.removed,
        without_deletes(action_views(plan.actions@)).len() <= action_views(plan.actions@).len(),
    ensures
        ({
            let all = action_views(plan.actions@);
            let dropped = all.len() - without_deletes(all).len();
            &&& action_views(less.actions@) == without_deletes(all)
            &&& less.stats == with_delete_count(
                plan.stats,
                (plan.stats.delete_count - dropped) as u64,
            )
            &&& less.removed == plan.removed - dropped
            &&& less.held_back == if dropped > 0 {
                Some(dropped as u64)
            } else {
                None
            }
        }),
{
    let Prepared { actions, stats, removed, held_back: _ } = plan;
    let before = actions.len();
    let ghost all = action_views(actions@);
    let kept = drop_deletes(actions);
    assert(action_views(kept@).len() == kept@.len());
    assert(all.len() == before);
    let dropped = (before - kept.len()) as u64;
    let mut stats = stats;
    stats.delete_count -= dropped;
    Prepared {
        actions: kept,
        stats,
        removed: removed - dropped,
        held_back: if dropped > 0 {
            Some(dropped)
        } else {
            None
        },
    }
}

/// What a plan loses by holding back its deletions.
pub proof fn held_back_figures(
    src: Seq<Item>,
    dst: Seq<Item>,
    tol: i64,
    forced: Seq<Seq<u8>>,
)
    requires
        ascending(paths_of(src)),
        ascending(paths_of(dst)),
        src.len() <= usize::MAX,
        dst.len() <= usize::MAX,
    ensures
        without_deletes(planned(src, dst, tol, forced)).len() + extraneous(src, dst) == planned(
            src,
            dst,
            tol,
            forced,
        ).len(),
        extraneous(src, dst) == 0 ==> without_deletes(planned(src, dst, tol, forced)) == planned(
            src,
            dst,
            tol,
            forced,
        ),
        tally(src, dst, tol, forced).delete_count == conflicts(src, dst).len() + extraneous(
            src,
            dst,
        ),
{
    figures_count_the_actions(src, dst, tol, forced);
    lemma_deletes_counted(planned(src, dst, tol, forced));
}

/// Taking out the deletions takes out as many actions as there are deletions.
proof fn lemma_deletes_counted(actions: Seq<ActionView>)
    ensures
        without_deletes(actions).len() + count(actions, 5) + count(actions, 6) == actions.len(),
        count(actions, 5) + count(actions, 6) == 0 ==> without_deletes(actions) == actions,
    decreases actions.len(),
{
    reveal(Seq::filter);
    if actions.len() > 0 {
        let rest = actions.drop_last();
        let last = actions.last();
        lemma_deletes_counted(rest);
        if !deletes(last) {
            assert(rest.push(last) =~= actions);
        }
    }
}

/// Holding back deletions keeps all other actions, in their order, and no
/// deletion of an extraneous entry.
pub proof fn held_back_plans_delete_nothing_extraneous(actions: Seq<ActionView>, k: int)
    requires
        0 <= k < without_deletes(actions).len(),
    ensures
        !deletes(without_deletes(actions)[k]),
        actions.contains(without_deletes(actions)[k]),
{
    let list = without_deletes(actions);
    crate::picks::filter_members(actions, |a: ActionView| !deletes(a));
    assert(list.contains(list[k]));
}

// ---------------------------------------------------------------------------
// The course of a run
// ---------------------------------------------------------------------------

/// What comes next.
#[derive(Debug, Clone, Copy, PartialEq, Eq, Structural)]
pub enum Step {
    /// Look at the two root directories.
    ProbeRoots,
    /// Say that the target does not exist and would be created.
    AnnounceTarget,
    /// Make sure that the two do not overlap.
    CheckRoots,
    /// Create the target directory. It comes after the check: a target inside
    /// the source must not be created.
    CreateTarget,
    /// Scan both trees.
    Scan,
    /// Compare the contents of seemingly unchanged files.
    Hash,
    /// Plan the run.
    Plan,
    /// Compare the metadata of the two root directories. The root produces no
    /// action (it appears in neither tree), but it has to be mirrored as well:
    /// otherwise a pure metadata drift of the root would be permanent.
    CompareRoots,
    /// Ask for a confirmation.
    Confirm,
    /// Carry out the plan.
    Execute,
    /// Mirror the metadata of the root. It comes last: every change in the
    /// target just touched its mtime.
    MirrorRoot,
    /// The run is over.
    Stop(Ending),
}

/// How a run ends.
#[derive(Debug, Clone, Copy, PartialEq, Eq, Structural)]
pub enum Ending {
    /// The source is not a directory.
    SourceNotDirectory,
    /// The target exists and is not a directory.
    TargetNotDirectory,
    /// A step of its own failed, with an error of its own.
    StepFailed,
    /// The source is empty and the target is not.
    SourceEmpty { entries: usize },
    /// More would have to be deleted than is allowed.
    TooManyDeletes { count: u64, max: u64 },
    /// It was a dry run.
    DryRun { unreadable: usize },
    /// There was nothing to do.
    InSync { unreadable: usize },
    /// The deletions were not confirmed.
    Declined,
    /// Actions failed.
    ActionsFailed { failed: u64 },
    /// All actions worked, but directories stayed unread.
    Incomplete { unreadable: usize },
    /// The target mirrors the source.
    Mirrored,
}

/// What came of a step.
#[derive(Debug, Clone, Copy, PartialEq, Eq, Structural)]
pub enum Event {
    Roots { source_is_dir: bool, dest_exists: bool, dest_is_dir: bool },
    Done,
    Failed,
    Scanned { unreadable: usize, source_entries: usize, dest_entries: usize },
    Planned { removed: u64, actions: usize },
    RootsDiffer(bool),
    Answered(bool),
    Executed { failed: u64 },
}

/// A run.
#[derive(Debug, Clone, Copy)]
pub struct Session {
    pub settings: Settings,
    pub step: Step,
    pub target_missing: bool,
    pub unreadable: usize,
    pub source_entries: usize,
    pub dest_entries: usize,
    pub removed: u64,
    pub actions: usize,
    pub root_pending: bool,
    pub consented: bool,
    pub failed: u64,
}

/// The event can come of the step.
pub open spec fn event_fits(step: Step, event: Event) -> bool {
    match step {
        Step::ProbeRoots => event is Roots,
        Step::AnnounceTarget => event is Done,
        Step::CreateTarget => event is Done || event is Failed,
        Step::CheckRoots => event is Done || event is Failed,
        Step::Scan => event is Scanned || event is Failed,
        Step::Hash => event is Done,
        Step::Plan => event is Planned,
        Step::CompareRoots => event is RootsDiffer,
        Step::Confirm => event is Answered || event is Failed,
        Step::Execute => event is Executed,
        Step::MirrorRoot => event is Done,
        Step::Stop(_) => false,
    }
}

/// The start of a run.
pub open spec fn session_start(settings: Settings) -> Session {
    Session {
        settings,
        step: Step::ProbeRoots,
        target_missing: false,
        unreadable: 0,
        source_entries: 0,
        dest_entries: 0,
        removed: 0,
        actions: 0,
        root_pending: false,
        consented: false,
        failed: 0,
    }
}

/// What comes after a look at the root directories.
pub open spec fn after_probe(
    dry_run: bool,
    source_is_dir: bool,
    dest_exists: bool,
    dest_is_dir: bool,
) -> Step {
    if !source_is_dir {
        Step::Stop(Ending::SourceNotDirectory)
    } else if !dest_exists {
        if dry_run {
            Step::AnnounceTarget
        } else {
            Step::CheckRoots
        }
    } else if !dest_is_dir {
        Step::Stop(Ending::TargetNotDirectory)
    } else {
        Step::CheckRoots
    }
}

/// What comes once source and target are known not to overlap. The target must
/// exist; otherwise it is created. Not in a dry run: it must not change
/// anything, and a typo in the target path should not silently turn into a real
/// directory.
pub open spec fn after_check(dry_run: bool, target_missing: bool) -> Step {
    if target_missing && !dry_run {
        Step::CreateTarget
    } else {
        Step::Scan
    }
}

/// What comes once the plan is known. Both safety nets against mass deletion
/// take effect before the end of a dry run, so that a trial run reports them
/// too, and before the confirmation, so that it cannot bypass them. An empty
/// source usually means an unmounted disk.
pub open spec fn after_plan(
    settings: Settings,
    unreadable: usize,
    source_entries: usize,
    dest_entries: usize,
    removed: u64,
) -> Step {
    if source_entries == 0 && dest_entries != 0 && !settings.allow_empty_source {
        Step::Stop(Ending::SourceEmpty { entries: dest_entries })
    } else if settings.max_delete matches Some(max) && removed > max {
        Step::Stop(
            Ending::TooManyDeletes { count: removed, max: settings.max_delete->0 },
        )
    } else if settings.dry_run {
        Step::Stop(Ending::DryRun { unreadable })
    } else {
        Step::CompareRoots
    }
}

/// What comes once it is known whether the roots differ.
pub open spec fn after_compare(
    settings: Settings,
    unreadable: usize,
    removed: u64,
    actions: usize,
    pending: bool,
) -> Step {
    if actions == 0 && !pending {
        Step::Stop(Ending::InSync { unreadable })
    } else if removed > 0 && !settings.yes {
        Step::Confirm
    } else {
        Step::Execute
    }
}

/// How a run that was carried out ends.
pub open spec fn ending_of(failed: u64, unreadable: usize) -> Ending {
    if failed > 0 {
        Ending::ActionsFailed { failed }
    } else if unreadable > 0 {
        Ending::Incomplete { unreadable }
    } else {
        Ending::Mirrored
    }
}

/// The run after an event.
pub open spec fn session_next(s: Session, event: Event) -> Session {
    match (s.step, event) {
        (_, Event::Failed) => Session { step: Step::Stop(Ending::StepFailed), ..s },
        (
            Step::ProbeRoots,
            Event::Roots { source_is_dir, dest_exists, dest_is_dir },
        ) => Session {
            step: after_probe(s.settings.dry_run, source_is_dir, dest_exists, dest_is_dir),
            target_missing: !dest_exists,
            ..s
        },
        (Step::AnnounceTarget, _) => Session { step: Step::CheckRoots, ..s },
        (Step::CheckRoots, _) => Session {
            step: after_check(s.settings.dry_run, s.target_missing),
            ..s
        },
        (Step::CreateTarget, _) => Session { step: Step::Scan, ..s },
        (
            Step::Scan,
            Event::Scanned { unreadable, source_entries, dest_entries },
        ) => Session {
            step: if s.settings.checksum {
                Step::Hash
            } else {
                Step::Plan
            },
            unreadable,
            source_entries,
            dest_entries,
            ..s
        },
        (Step::Hash, _) => Session { step: Step::Plan, ..s },
        (Step::Plan, Event::Planned { removed, actions }) => Session {
            step: after_plan(
                s.settings,
                s.unreadable,
                s.source_entries,
                s.dest_entries,
                removed,
            ),
            removed,
            actions,
            ..s
        },
        (Step::CompareRoots, Event::RootsDiffer(pending)) => Session {
            step: after_compare(s.settings, s.unreadable, s.removed, s.actions, pending),
            root_pending: pending,
            ..s
        },
        (Step::Confirm, Event::Answered(yes)) => Session {
            step: if yes {
                Step::Execute
            } else {
                Step::Stop(Ending::Declined)
            },
            consented: yes,
            ..s
        },
        (Step::Execute, Event::Executed { failed }) => Session {
            step: Step::MirrorRoot,
            failed,
            ..s
        },
        (Step::MirrorRoot, _) => Session {
            step: Step::Stop(ending_of(s.failed, s.unreadable)),
            ..s
        },
        _ => s,
    }
}

impl Session {
    /// Starts a run.
    pub fn start(settings: Settings) -> (session: Session)
        ensures
            session == session_start(settings),
    {
        Session {
            settings,
            step: Step::ProbeRoots,
            target_missing: false,
            unreadable: 0,
            source_entries: 0,
            dest_entries: 0,
            removed: 0,
            actions: 0,
            root_pending: false,
            consented: false,
            failed: 0,
        }
    }

    /// Takes in what came of the current step.
    pub fn on(&mut self, event: Event)
        requires
            event_fits(old(self).step, event),
        ensures
            *final(self) == session_next(*old(self), event),
    {
        match event {
            Event::Failed => {
                self.step = Step::Stop(Ending::StepFailed);
            },
            Event::Roots { source_is_dir, dest_exists, dest_is_dir } => {
                self.target_missing = !dest_exists;
                self.step = if !source_is_dir {
                    Step::Stop(Ending::SourceNotDirectory)
                } else if !dest_exists {
                    if self.settings.dry_run {
                        Step::AnnounceTarget
                    } else {
                        Step::CheckRoots
                    }
                } else if !dest_is_dir {
                    Step::Stop(Ending::TargetNotDirectory)
                } else {
                    Step::CheckRoots
                };
            },
            Event::Scanned { unreadable, source_entries, dest_entries } => {
                self.unreadable = unreadable;
                self.source_entries = source_entries;
                self.dest_entries = dest_entries;
                self.step = if self.settings.checksum {
                    Step::Hash
                } else {
                    Step::Plan
                };
            },
            Event::Planned { removed, actions } => {
                self.removed = removed;
                self.actions = actions;
                self.step = self.limit();
            },
            Event::RootsDiffer(pending) => {
                self.root_pending = pending;
                self.step = if self.actions == 0 && !pending {
                    Step::Stop(Ending::InSync { unreadable: self.unreadable })
                } else if self.removed > 0 && !self.settings.yes {
                    Step::Confirm
                } else {
                    Step::Execute
                };
            },
            Event::Answered(yes) => {
                self.consented = yes;
                self.step = if yes {
                    Step::Execute
                } else {
                    Step::Stop(Ending::Declined)
                };
            },
            Event::Executed { failed } => {
                self.failed = failed;
                self.step = Step::MirrorRoot;
            },
            Event::Done => {
                self.step = match self.step {
                    Step::AnnounceTarget => Step::CheckRoots,
                    Step::CheckRoots => if self.target_missing && !self.settings.dry_run {
                        Step::CreateTarget
                    } else {
                        Step::Scan
                    },
                    Step::CreateTarget => Step::Scan,
                    Step::Hash => Step::Plan,
                    _ => {
                        Step::Stop(
                            if self.failed > 0 {
                                Ending::ActionsFailed { failed: self.failed }
                            } else if self.unreadable > 0 {
                                Ending::Incomplete { unreadable: self.unreadable }
                            } else {
                                Ending::Mirrored
                            },
                        )
                    },
                };
            },
        }
    }

    /// What comes once the plan is known.
    fn limit(&self) -> (step: Step)
        ensures
            step == after_plan(
                self.settings,
                self.unreadable,
                self.source_entries,
                self.dest_entries,
                self.removed,
            ),
    {
        if self.source_entries == 0 && self.dest_entries != 0 && !self.settings.allow_empty_source {
            return Step::Stop(Ending::SourceEmpty { entries: self.dest_entries });
        }
        if let Some(max) = self.settings.max_delete {
            if self.removed > max {
                return Step::Stop(Ending::TooManyDeletes { count: self.removed, max });
            }
        }
        if self.settings.dry_run {
            Step::Stop(Ending::DryRun { unreadable: self.unreadable })
        } else {
            Step::CompareRoots
        }
    }
}

// ---------------------------------------------------------------------------
// Laws
// ---------------------------------------------------------------------------

/// The safety nets let the plan through.
pub open spec fn limits_hold(s: Session) -> bool {
    &&& s.source_entries == 0 && s.dest_entries != 0 ==> s.settings.allow_empty_source
    &&& s.settings.max_delete matches Some(max) ==> s.removed <= max
}

/// What is known of a run that has got as far as its current step.
pub open spec fn sound(s: Session) -> bool {
    match s.step {
        Step::CreateTarget => !s.settings.dry_run,
        Step::CompareRoots => !s.settings.dry_run && limits_hold(s),
        Step::Confirm => {
            &&& !s.settings.dry_run
            &&& limits_hold(s)
            &&& s.removed > 0
            &&& !s.settings.yes
            &&& s.actions > 0 || s.root_pending
        },
        Step::Execute | Step::MirrorRoot => {
            &&& !s.settings.dry_run
            &&& limits_hold(s)
            &&& s.removed == 0 || s.settings.yes || s.consented
            &&& s.actions > 0 || s.root_pending
        },
        Step::Stop(Ending::Mirrored) => {
            &&& !s.settings.dry_run
            &&& limits_hold(s)
            &&& s.removed == 0 || s.settings.yes || s.consented
            &&& s.failed == 0
            &&& s.unreadable == 0
        },
        _ => true,
    }
}

/// A run starts sound and stays so. Hence: the target is created, and the plan
/// carried out, in no dry run; a plan is carried out only if the source is not
/// unexpectedly empty, no more is deleted than allowed, and deletions, if there
/// are any, were confirmed or need no confirmation; and a run that claims that
/// the target mirrors the source had no failed action and left no directory
/// unread.
pub proof fn runs_stay_sound(s: Session, event: Event)
    requires
        sound(s),
        event_fits(s.step, event),
    ensures
        sound(session_next(s, event)),
        session_next(s, event).settings == s.settings,
{
}

/// A run starts sound.
pub proof fn runs_start_sound(settings: Settings)
    ensures
        sound(session_start(settings)),
{
}

/// The run after a series of events.
pub open spec fn session_after(settings: Settings, events: Seq<Event>) -> Session
    decreases events.len(),
{
    if events.len() == 0 {
        session_start(settings)
    } else {
        session_next(session_after(settings, events.drop_last()), events.last())
    }
}

/// Each event can come of its step.
pub open spec fn events_fit(settings: Settings, events: Seq<Event>) -> bool {
    forall|k: int|
        0 <= k < events.len() ==> event_fits(
            session_after(settings, #[trigger] events.take(k)).step,
            events[k],
        )
}

/// Whatever happens in the course of a run, a plan is carried out only if this
/// is no dry run, the source is not unexpectedly empty, no more is deleted than
/// allowed, and deletions, if there are any, were confirmed or need no
/// confirmation. And the target is said to mirror the source only if no action
/// failed and no directory stayed unread.
pub proof fn plans_are_carried_out_only_if_safe(settings: Settings, events: Seq<Event>)
    requires
        events_fit(settings, events),
    ensures
        ({
            let s = session_after(settings, events);
            &&& s.settings == settings
            &&& sound(s)
            &&& s.step is Execute ==> {
                &&& !settings.dry_run
                &&& s.source_entries == 0 && s.dest_entries != 0 ==> settings.allow_empty_source
                &&& settings.max_delete matches Some(max) ==> s.removed <= max
                &&& s.removed > 0 ==> settings.yes || s.consented
            }
            &&& s.step is CreateTarget || s.step is MirrorRoot ==> !settings.dry_run
            &&& s.step == Step::Stop(Ending::Mirrored) ==> s.failed == 0 && s.unreadable == 0
        }),
    decreases events.len(),
{
    if events.len() > 0 {
        let rest = events.drop_last();
        let n = rest.len() as int;
        assert(events.take(n) =~= rest);
        assert(event_fits(session_after(settings, events.take(n)).step, events[n]));
        assert forall|k: int| 0 <= k < rest.len() implies event_fits(
            session_after(settings, #[trigger] rest.take(k)).step,
            rest[k],
        ) by {
            assert(rest.take(k) =~= events.take(k));
        }
        plans_are_carried_out_only_if_safe(settings, rest);
        runs_stay_sound(session_after(settings, rest), events.last());
    }
}

/// The run was told how many entries go.
pub open spec fn told(events: Seq<Event>, removed: nat) -> bool {
    forall|k: int|
        0 <= k < events.len() && (#[trigger] events[k]) is Planned ==> events[k]->removed
            == removed
}

/// A run that was told how many entries go from the target carries its plan out
/// only if these are not more than allowed, and were confirmed or need no
/// confirmation. A limit of zero forbids any removal.
pub proof fn limits_count_every_removal(
    settings: Settings,
    events: Seq<Event>,
    removed: nat,
)
    requires
        events_fit(settings, events),
        told(events, removed),
    ensures
        ({
            let s = session_after(settings, events);
            s.step is Execute ==> {
                &&& settings.max_delete matches Some(max) ==> removed <= max
                &&& removed > 0 ==> settings.yes || s.consented
            }
        }),
{
    plans_are_carried_out_only_if_safe(settings, events);
    lemma_figures_are_kept(settings, events, removed);
}

proof fn lemma_figures_are_kept(
    settings: Settings,
    events: Seq<Event>,
    removed: nat,
)
    requires
        events_fit(settings, events),
        told(events, removed),
    ensures
        ({
            let s = session_after(settings, events);
            s.step is CompareRoots || s.step is Confirm || s.step is Execute ==> s.removed
                == removed
        }),
    decreases events.len(),
{
    if events.len() > 0 {
        let rest = events.drop_last();
        let n = rest.len() as int;
        assert(events.take(n) =~= rest);
        assert(event_fits(session_after(settings, events.take(n)).step, events[n]));
        assert forall|k: int| 0 <= k < rest.len() implies event_fits(
            session_after(settings, #[trigger] rest.take(k)).step,
            rest[k],
        ) by {
            assert(rest.take(k) =~= events.take(k));
        }
        assert(forall|k: int| 0 <= k < rest.len() ==> rest[k] == events[k]);
        lemma_figures_are_kept(settings, rest, removed);
    }
}

/// The step comes behind the check that source and target do not overlap.
pub open spec fn is_past_check(step: Step) -> bool {
    match step {
        Step::ProbeRoots | Step::AnnounceTarget | Step::CheckRoots | Step::Stop(_) => false,
        _ => true,
    }
}

/// Before event `k` the run stood at the check that source and target do not
/// overlap, and the event says that they do not.
pub open spec fn check_passed(settings: Settings, events: Seq<Event>, k: int) -> bool {
    &&& 0 <= k < events.len()
    &&& session_after(settings, events.take(k)).step is CheckRoots
    &&& events[k] is Done
}

/// Nothing is written, the target directory not even created, before source and
/// target are known not to overlap.
pub proof fn nothing_is_written_before_the_check(settings: Settings, events: Seq<Event>)
    requires
        events_fit(settings, events),
    ensures
        ({
            let step = session_after(settings, events).step;
            &&& is_past_check(step) ==> exists|k: int| #[trigger] check_passed(settings, events, k)
            &&& step is CreateTarget || step is Execute || step is MirrorRoot ==> is_past_check(
                step,
            )
            &&& step is CreateTarget ==> check_passed(settings, events, events.len() - 1)
        }),
    decreases events.len(),
{
    if events.len() > 0 {
        let rest = events.drop_last();
        let n = rest.len() as int;
        assert(events.take(n) =~= rest);
        assert(event_fits(session_after(settings, events.take(n)).step, events[n]));
        assert forall|k: int| 0 <= k < rest.len() implies event_fits(
            session_after(settings, #[trigger] rest.take(k)).step,
            rest[k],
        ) by {
            assert(rest.take(k) =~= events.take(k));
        }
        nothing_is_written_before_the_check(settings, rest);
        let before = session_after(settings, rest);
        if before.step is CheckRoots && events.last() is Done {
            assert(check_passed(settings, events, n));
        } else if is_past_check(before.step) {
            let k = choose|k: int| #[trigger] check_passed(settings, rest, k);
            assert(rest.take(k) =~= events.take(k));
            assert(check_passed(settings, events, k));
        }
    }
}

/// How many steps can still follow.
pub open spec fn steps_left(step: Step) -> nat {
    match step {
        Step::ProbeRoots => 11,
        Step::AnnounceTarget => 10,
        Step::CheckRoots => 9,
        Step::CreateTarget => 8,
        Step::Scan => 7,
        Step::Hash => 6,
        Step::Plan => 5,
        Step::CompareRoots => 4,
        Step::Confirm => 3,
        Step::Execute => 2,
        Step::MirrorRoot => 1,
        Step::Stop(_) => 0,
    }
}

/// Every event brings a run closer to its end.
pub proof fn runs_come_to_an_end(s: Session, event: Event)
    requires
        event_fits(s.step, event),
    ensures
        steps_left(session_next(s, event).step) < steps_left(s.step),
{
}

/// Neither safety net can be bypassed by skipping the confirmation, or by a
/// dry run.
pub proof fn limits_come_first(s: Session, removed: u64, actions: usize)
    requires
        s.step is Plan,
    ensures
        ({
            let after = session_next(s, Event::Planned { removed, actions });
            let refused = (s.source_entries == 0 && s.dest_entries != 0
                && !s.settings.allow_empty_source) || (s.settings.max_delete matches Some(max)
                && removed > max);
            refused <==> (after.step matches Step::Stop(e) && (e is SourceEmpty
                || e is TooManyDeletes))
        }),
{
}

} // verus!
