//! The course of a run.

use crate::session::{event_fits, events_fit, session_after, Ending, Event, Session, Settings, Step};
use vstd::prelude::*;

verus! {

/// Starting a run and telling it what came of its steps runs through the states
/// that the other laws speak of.
pub proof fn runs_are_played(
    settings: Settings,
    start: Session,
    session: &mut Session,
    event: Event,
    events: Seq<Event>,
)
    requires
        call_ensures(Session::start, (settings,), start),
        call_ensures(Session::on, (session, event), ()),
        *old(session) == session_after(settings, events),
    ensures
        start == session_after(settings, Seq::empty()),
        *final(session) == session_after(settings, events.push(event)),
        start.settings == settings,
        start.step == Step::ProbeRoots,
{
    assert(events.push(event).drop_last() =~= events);
}

/// Which events a step can have: the figures that it is about, or that it is done,
/// and in front of the deletions and during a scan also that it failed.
pub proof fn steps_take_their_events(step: Step, event: Event)
    ensures
        event is Roots ==> (event_fits(step, event) <==> step is ProbeRoots),
        event is Scanned ==> (event_fits(step, event) <==> step is Scan),
        event is Planned ==> (event_fits(step, event) <==> step is Plan),
        event is RootsDiffer ==> (event_fits(step, event) <==> step is CompareRoots),
        event is Answered ==> (event_fits(step, event) <==> step is Confirm),
        event is Executed ==> (event_fits(step, event) <==> step is Execute),
        event is Done ==> (event_fits(step, event) <==> step is AnnounceTarget
            || step is CheckRoots || step is CreateTarget || step is Hash || step is MirrorRoot),
        event is Failed ==> (event_fits(step, event) <==> step is CheckRoots
            || step is CreateTarget || step is Scan || step is Confirm),
{
}

/// The start of a series of events, one event shorter.
proof fn lemma_rest(settings: Settings, events: Seq<Event>)
    requires
        events_fit(settings, events),
        events.len() > 0,
    ensures
        events_fit(settings, events.drop_last()),
        event_fits(session_after(settings, events.drop_last()).step, events.last()),
        events.take(events.len() - 1) == events.drop_last(),
{
    let rest = events.drop_last();
    let n = rest.len() as int;
    assert(events.take(n) =~= rest);
    assert(event_fits(session_after(settings, events.take(n)).step, events[n]));
    assert forall|k: int| 0 <= k < rest.len() implies event_fits(
        session_after(settings, #[trigger] rest.take(k)).step,
        rest[k],
    ) by {
        assert(rest.take(k) =~= events.take(k));
    }
}

/// A run keeps its settings.
proof fn lemma_settings(settings: Settings, events: Seq<Event>)
    requires
        events_fit(settings, events),
    ensures
        session_after(settings, events).settings == settings,
    decreases events.len(),
{
    if events.len() > 0 {
        lemma_rest(settings, events);
        lemma_settings(settings, events.drop_last());
    }
}

/// The run stood at `step` before event `k`.
pub open spec fn stood_at(settings: Settings, events: Seq<Event>, k: int, step: Step) -> bool {
    0 <= k < events.len() && session_after(settings, events.take(k)).step == step
}

/// The step comes only once the plan can be made.
pub open spec fn is_past_scan(step: Step) -> bool {
    match step {
        Step::Plan | Step::CompareRoots | Step::Confirm | Step::Execute | Step::MirrorRoot => true,
        Step::Stop(ending) => ending is SourceEmpty || ending is TooManyDeletes || ending is DryRun
            || ending is InSync || ending is Declined || ending is ActionsFailed
            || ending is Incomplete || ending is Mirrored,
        _ => false,
    }
}

/// With `--checksum` no run gets as far as planning, or any step behind it, without
/// having compared the contents of files that look unchanged, whatever the other
/// settings say. Without it contents are never compared.
pub proof fn contents_are_compared_exactly_if_asked_for(settings: Settings, events: Seq<Event>)
    requires
        events_fit(settings, events),
    ensures
        ({
            let step = session_after(settings, events).step;
            &&& settings.checksum && is_past_scan(step) ==> exists|k: int| #[trigger]
                stood_at(settings, events, k, Step::Hash) && events[k] is Done
            &&& !settings.checksum ==> !(step is Hash)
        }),
    decreases events.len(),
{
    lemma_settings(settings, events);
    if events.len() > 0 {
        let rest = events.drop_last();
        let n = rest.len() as int;
        lemma_rest(settings, events);
        lemma_settings(settings, rest);
        contents_are_compared_exactly_if_asked_for(settings, rest);
        let before = session_after(settings, rest);
        if settings.checksum && is_past_scan(session_after(settings, events).step) {
            if before.step is Hash {
                assert(stood_at(settings, events, n, Step::Hash));
            } else if is_past_scan(before.step) {
                let k = choose|k: int| #[trigger]
                    stood_at(settings, rest, k, Step::Hash) && rest[k] is Done;
                assert(rest.take(k) =~= events.take(k));
                assert(stood_at(settings, events, k, Step::Hash));
                assert(events[k] == rest[k]);
            } else {
                assert(false);
            }
        }
    }
}

/// What each step is reached by, and by nothing else.
pub proof fn steps_are_reached(session: &mut Session, event: Event)
    requires
        event_fits(old(session).step, event),
        call_ensures(Session::on, (session, event), ()),
    ensures
        ({
            let s = *old(session);
            let next = final(session).step;
            let checked = s.step is CheckRoots && event is Done;
            &&& next is AnnounceTarget <==> event == (Event::Roots {
                source_is_dir: true,
                dest_exists: false,
                dest_is_dir: event->dest_is_dir,
            }) && s.settings.dry_run
            &&& next is CheckRoots <==> (s.step is AnnounceTarget && event is Done) || (
            event matches Event::Roots { source_is_dir, dest_exists, dest_is_dir }
                && source_is_dir && (if dest_exists {
                dest_is_dir
            } else {
                !s.settings.dry_run
            }))
            &&& next is CreateTarget <==> checked && s.target_missing && !s.settings.dry_run
            &&& next is Scan <==> (checked && (!s.target_missing || s.settings.dry_run)) || (
            s.step is CreateTarget && event is Done)
            &&& next is Hash <==> event is Scanned && s.settings.checksum
            &&& next is Plan <==> (event is Scanned && !s.settings.checksum) || (s.step is Hash
                && event is Done)
            &&& next is MirrorRoot <==> event is Executed
            &&& !(next is ProbeRoots)
        }),
{
}

/// When a run stops before anything is carried out: the source is no directory,
/// the target exists and is none, a step failed, the source is unexpectedly
/// empty, or more would go than is allowed. Only then does a dry run end, and a
/// real run go on.
pub proof fn runs_stop_before_harm(session: &mut Session, event: Event)
    requires
        event_fits(old(session).step, event),
        call_ensures(Session::on, (session, event), ()),
    ensures
        ({
            let s = *old(session);
            let next = final(session).step;
            let empty = s.source_entries == 0 && s.dest_entries > 0
                && !s.settings.allow_empty_source;
            &&& next == Step::Stop(Ending::StepFailed) <==> event is Failed
            &&& next == Step::Stop(Ending::SourceNotDirectory) <==> (
            event matches Event::Roots { source_is_dir, .. } && !source_is_dir)
            &&& next == Step::Stop(Ending::TargetNotDirectory) <==> (
            event matches Event::Roots { source_is_dir, dest_exists, dest_is_dir }
                && source_is_dir && dest_exists && !dest_is_dir)
            &&& event matches Event::Planned { removed, .. } ==> {
                let many = s.settings.max_delete matches Some(max) && removed > max;
                &&& empty <==> next == Step::Stop(Ending::SourceEmpty { entries: s.dest_entries })
                &&& !empty && many <==> next == Step::Stop(
                    Ending::TooManyDeletes { count: removed, max: s.settings.max_delete->0 },
                )
                &&& !empty && !many && s.settings.dry_run <==> next == Step::Stop(
                    Ending::DryRun { unreadable: s.unreadable },
                )
                &&& !empty && !many && !s.settings.dry_run <==> next is CompareRoots
            }
            &&& !(event is Planned) ==> !(next is CompareRoots) && (
            next matches Step::Stop(ending) ==> !(ending is SourceEmpty
                || ending is TooManyDeletes || ending is DryRun))
        }),
{
}

/// A plan without actions, on roots that agree, leaves nothing to do. Otherwise it
/// is carried out, after a question if something goes and the question was not
/// waived; a run that was not consented to ends.
pub proof fn plans_are_carried_out_with_consent(session: &mut Session, event: Event)
    requires
        event_fits(old(session).step, event),
        call_ensures(Session::on, (session, event), ()),
    ensures
        ({
            let s = *old(session);
            let next = final(session).step;
            &&& event matches Event::RootsDiffer(pending) ==> {
                let idle = s.actions == 0 && !pending;
                let ask = s.removed > 0 && !s.settings.yes;
                &&& idle <==> next == Step::Stop(Ending::InSync { unreadable: s.unreadable })
                &&& !idle && ask <==> next is Confirm
                &&& !idle && !ask <==> next is Execute
            }
            &&& event matches Event::Answered(yes) ==> {
                &&& yes <==> next is Execute
                &&& !yes <==> next == Step::Stop(Ending::Declined)
            }
            &&& !(event is RootsDiffer || event is Answered) ==> !(next is Confirm
                || next is Execute) && (next matches Step::Stop(ending) ==> !(ending is InSync
                || ending is Declined))
        }),
{
}

/// How a run that was carried out ends: with an error if actions failed, with
/// another one if directories stayed unread, and as a mirror otherwise.
pub proof fn runs_end_as_they_went(session: &mut Session, event: Event)
    requires
        event_fits(old(session).step, event),
        call_ensures(Session::on, (session, event), ()),
    ensures
        ({
            let s = *old(session);
            let next = final(session).step;
            let last = s.step is MirrorRoot;
            &&& last && s.failed > 0 <==> next == Step::Stop(
                Ending::ActionsFailed { failed: s.failed },
            )
            &&& last && s.failed == 0 && s.unreadable > 0 <==> next == Step::Stop(
                Ending::Incomplete { unreadable: s.unreadable },
            )
            &&& !last ==> !(next matches Step::Stop(ending) && (ending is ActionsFailed
                || ending is Incomplete))
            &&& last && s.failed == 0 && s.unreadable == 0 <==> next == Step::Stop(
                Ending::Mirrored,
            )
        }),
{
}

/// A run remembers what it was told, and nothing else changes.
pub proof fn runs_remember_what_they_were_told(session: &mut Session, event: Event)
    requires
        event_fits(old(session).step, event),
        call_ensures(Session::on, (session, event), ()),
    ensures
        ({
            let s = *old(session);
            let t = *final(session);
            &&& t.settings == s.settings
            &&& t.target_missing == match event {
                Event::Roots { dest_exists, .. } => !dest_exists,
                _ => s.target_missing,
            }
            &&& (t.unreadable, t.source_entries, t.dest_entries) == match event {
                Event::Scanned { unreadable, source_entries, dest_entries } => (
                    unreadable,
                    source_entries,
                    dest_entries,
                ),
                _ => (s.unreadable, s.source_entries, s.dest_entries),
            }
            &&& (t.removed, t.actions) == match event {
                Event::Planned { removed, actions } => (removed, actions),
                _ => (s.removed, s.actions),
            }
            &&& t.root_pending == match event {
                Event::RootsDiffer(pending) => pending,
                _ => s.root_pending,
            }
            &&& t.consented == match event {
                Event::Answered(yes) => yes,
                _ => s.consented,
            }
            &&& t.failed == match event {
                Event::Executed { failed } => failed,
                _ => s.failed,
            }
        }),
{
}

/// Whatever happens in the course of a run, the target is said to mirror the
/// source only if no action failed, no directory stayed unread and no question was
/// answered with no. And a plan that takes something away is carried out only if
/// the question was waived, or answered with yes.
pub proof fn claims_are_backed_by_events(settings: Settings, events: Seq<Event>, k: int)
    requires
        events_fit(settings, events),
        0 <= k < events.len(),
    ensures
        ({
            let step = session_after(settings, events).step;
            &&& step == Step::Stop(Ending::Mirrored) ==> {
                &&& events[k] matches Event::Executed { failed } ==> failed == 0
                &&& events[k] matches Event::Scanned { unreadable, .. } ==> unreadable == 0
                &&& events[k] != Event::Answered(false)
            }
            &&& step is Execute && (events[k] matches Event::Planned { removed, .. } && removed
                > 0) && !settings.yes ==> exists|m: int|
                0 <= m < events.len() && (#[trigger] events[m]) == Event::Answered(true)
            &&& step is Execute ==> !settings.dry_run
            &&& step is Execute && settings.max_delete is Some ==> (
            events[k] matches Event::Planned { removed, .. } ==> removed
                <= settings.max_delete->0)
        }),
{
    lemma_history(settings, events, k);
    lemma_consent(settings, events);
    lemma_settings(settings, events);
    crate::session::plans_are_carried_out_only_if_safe(settings, events);
}

/// What a run remembers are the figures of its events.
proof fn lemma_history(settings: Settings, events: Seq<Event>, k: int)
    requires
        events_fit(settings, events),
        0 <= k < events.len(),
    ensures
        ({
            let s = session_after(settings, events);
            let left = crate::session::steps_left(s.step);
            &&& events[k] matches Event::Executed { failed } ==> s.failed == failed && left <= 1
            &&& events[k] matches Event::Scanned { unreadable, .. } ==> s.unreadable == unreadable
                && left <= 6
            &&& events[k] matches Event::Planned { removed, .. } ==> s.removed == removed && left
                <= 4
            &&& events[k] == Event::Answered(false) ==> s.step == Step::Stop(Ending::Declined)
        }),
    decreases events.len(),
{
    lemma_rest(settings, events);
    let rest = events.drop_last();
    let before = session_after(settings, rest);
    if k < rest.len() {
        lemma_history(settings, rest, k);
        crate::session::runs_come_to_an_end(before, events.last());
    }
}

proof fn lemma_consent(settings: Settings, events: Seq<Event>)
    requires
        events_fit(settings, events),
    ensures
        session_after(settings, events).consented ==> exists|m: int|
            0 <= m < events.len() && (#[trigger] events[m]) == Event::Answered(true),
    decreases events.len(),
{
    if events.len() > 0 {
        lemma_rest(settings, events);
        let rest = events.drop_last();
        lemma_consent(settings, rest);
        if session_after(settings, rest).consented {
            let m = choose|m: int|
                0 <= m < rest.len() && (#[trigger] rest[m]) == Event::Answered(true);
            assert(events[m] == Event::Answered(true));
        }
        if events.last() == Event::Answered(true) {
            assert(events[events.len() - 1] == Event::Answered(true));
        }
    }
}

} // verus!
