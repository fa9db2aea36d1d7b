use dino_copy::entry::{EntryKind, FileEntry};
use dino_copy::losses::count_gone;
use dino_copy::path::UnixPath;
use dino_copy::plan::Action;
use dino_copy::report::{
    confirm_question, held_back_warning, incomplete_scan_error, kept_warning, skipped_warning,
};
use dino_copy::resolve::{check_disjoint, Canonical, Overlap, Resolution, Resolver};
use dino_copy::session::{prepare, Ending, Event, Session, Settings, Step};
use dino_copy::tree::{PathSet, Tree};

fn path(text: &str) -> UnixPath {
    UnixPath::from_text(text)
}

fn text(p: &UnixPath) -> String {
    String::from_utf8(p.as_bytes().clone()).unwrap()
}

fn plain() -> Settings {
    Settings {
        checksum: false,
        dry_run: false,
        yes: false,
        max_delete: None,
        allow_empty_source: false,
        ignore_errors: false,
    }
}

const ROOTS: Event = Event::Roots { source_is_dir: true, dest_exists: true, dest_is_dir: true };

fn scanned(unreadable: usize, source_entries: usize, dest_entries: usize) -> Event {
    Event::Scanned { unreadable, source_entries, dest_entries }
}

fn play(settings: Settings, events: &[Event]) -> Step {
    let mut session = Session::start(settings);
    for event in events {
        session.on(*event);
    }
    session.step
}

#[test]
fn a_plain_run_asks_before_it_deletes() {
    let mut events = vec![
        ROOTS,
        Event::Done,
        scanned(0, 3, 4),
        Event::Planned { removed: 1, actions: 2 },
        Event::RootsDiffer(false),
    ];
    assert_eq!(play(plain(), &events), Step::Confirm);
    assert_eq!(play(Settings { yes: true, ..plain() }, &events), Step::Execute);
    events.push(Event::Answered(true));
    assert_eq!(play(plain(), &events), Step::Execute);
    events.push(Event::Executed { failed: 0 });
    assert_eq!(play(plain(), &events), Step::MirrorRoot);
    events.push(Event::Done);
    assert_eq!(play(plain(), &events), Step::Stop(Ending::Mirrored));
    assert_eq!(
        play(plain(), &[ROOTS, Event::Done, scanned(0, 3, 4)]),
        Step::Plan
    );
    assert_eq!(
        play(Settings { checksum: true, ..plain() }, &[ROOTS, Event::Done, scanned(0, 3, 4)]),
        Step::Hash
    );
}

#[test]
fn a_declined_run_stops() {
    let events = [
        ROOTS,
        Event::Done,
        scanned(0, 3, 4),
        Event::Planned { removed: 1, actions: 2 },
        Event::RootsDiffer(false),
        Event::Answered(false),
    ];
    assert_eq!(play(plain(), &events), Step::Stop(Ending::Declined));
    assert_eq!(Ending::Declined.notice(), Some("Aborted.".to_string()));
    assert_eq!(Ending::Declined.error("s", "t"), None);
}

#[test]
fn inputs_are_validated() {
    let bad = Event::Roots { source_is_dir: false, dest_exists: true, dest_is_dir: true };
    assert_eq!(play(plain(), &[bad]), Step::Stop(Ending::SourceNotDirectory));
    let bad = Event::Roots { source_is_dir: true, dest_exists: true, dest_is_dir: false };
    assert_eq!(play(plain(), &[bad]), Step::Stop(Ending::TargetNotDirectory));
    let missing = Event::Roots { source_is_dir: true, dest_exists: false, dest_is_dir: false };
    // A target inside the source must not be created, so the check comes first.
    assert_eq!(play(plain(), &[missing]), Step::CheckRoots);
    assert_eq!(play(plain(), &[missing, Event::Done]), Step::CreateTarget);
    assert_eq!(play(plain(), &[missing, Event::Done, Event::Done]), Step::Scan);
    assert_eq!(play(plain(), &[ROOTS, Event::Done]), Step::Scan);
    let dry = Settings { dry_run: true, ..plain() };
    assert_eq!(play(dry, &[missing]), Step::AnnounceTarget);
    assert_eq!(play(dry, &[missing, Event::Done]), Step::CheckRoots);
    assert_eq!(play(dry, &[missing, Event::Done, Event::Done]), Step::Scan);
    assert_eq!(play(plain(), &[missing, Event::Failed]), Step::Stop(Ending::StepFailed));
    assert_eq!(
        Ending::SourceNotDirectory.error("/s", "/t").unwrap(),
        "Source is not a directory: /s"
    );
    assert_eq!(
        Ending::TargetNotDirectory.error("/s", "/t").unwrap(),
        "Target is not a directory: /t"
    );
    assert_eq!(Ending::StepFailed.error("/s", "/t"), None);
}

#[test]
fn an_empty_source_does_not_empty_the_target() {
    let plan = Event::Planned { removed: 5, actions: 5 };
    let events = [ROOTS, Event::Done, scanned(0, 0, 5), plan];
    let ending = Ending::SourceEmpty { entries: 5 };
    assert_eq!(play(plain(), &events), Step::Stop(ending));
    assert_eq!(play(Settings { yes: true, ..plain() }, &events), Step::Stop(ending));
    assert_eq!(play(Settings { dry_run: true, ..plain() }, &events), Step::Stop(ending));
    let allowed = Settings { allow_empty_source: true, ..plain() };
    assert_eq!(play(allowed, &events), Step::CompareRoots);
    let both_empty =
        [ROOTS, Event::Done, scanned(0, 0, 0), Event::Planned { removed: 0, actions: 0 }];
    assert_eq!(play(plain(), &both_empty), Step::CompareRoots);
    assert_eq!(
        ending.error("/s", "/t").unwrap(),
        "Source /s is empty, but the target holds 5 entries. Aborting: this looks like an unmounted source disk. If the target really should be emptied: --allow-empty-source"
    );
}

#[test]
fn more_deletes_than_allowed_stop_the_run() {
    let plan = Event::Planned { removed: 3, actions: 5 };
    let events = [ROOTS, Event::Done, scanned(0, 1, 5), plan];
    let limited = |max| Settings { max_delete: Some(max), yes: true, ..plain() };
    let ending = Ending::TooManyDeletes { count: 3, max: 2 };
    assert_eq!(play(limited(2), &events), Step::Stop(ending));
    assert_eq!(
        play(limited(0), &events),
        Step::Stop(Ending::TooManyDeletes { count: 3, max: 0 })
    );
    assert_eq!(play(limited(3), &events), Step::CompareRoots);
    assert_eq!(
        ending.error("", "").unwrap(),
        "3 deletions exceed the limit --max-delete 2. Aborting, nothing changed."
    );
}

#[test]
fn a_dry_run_ends_before_anything_changes() {
    let dry = Settings { dry_run: true, yes: true, ..plain() };
    let plan = Event::Planned { removed: 3, actions: 5 };
    let step = play(dry, &[ROOTS, Event::Done, scanned(2, 1, 5), plan]);
    let ending = Ending::DryRun { unreadable: 2 };
    assert_eq!(step, Step::Stop(ending));
    assert_eq!(ending.notice().unwrap(), "(dry-run: no changes)");
    assert_eq!(
        ending.error("", "").unwrap(),
        "2 directory/directories could not be read - the mirror is incomplete."
    );
    assert_eq!(Ending::DryRun { unreadable: 0 }.error("", ""), None);
}

#[test]
fn nothing_to_do_unless_the_root_drifted() {
    let plan = Event::Planned { removed: 0, actions: 0 };
    let mut events = vec![ROOTS, Event::Done, scanned(0, 1, 1), plan, Event::RootsDiffer(false)];
    assert_eq!(play(plain(), &events), Step::Stop(Ending::InSync { unreadable: 0 }));
    events.pop();
    events.push(Event::RootsDiffer(true));
    assert_eq!(play(plain(), &events), Step::Execute);
    let ending = Ending::InSync { unreadable: 1 };
    assert_eq!(ending.notice().unwrap(), "Nothing to do. Target is already in sync.");
    assert!(ending.error("", "").is_some());
}

#[test]
fn failures_and_unread_directories_are_errors() {
    let events = |unreadable, failed| {
        vec![
            ROOTS,
            Event::Done,
            scanned(unreadable, 3, 4),
            Event::Planned { removed: 0, actions: 2 },
            Event::RootsDiffer(false),
            Event::Executed { failed },
            Event::Done,
        ]
    };
    assert_eq!(
        play(plain(), &events(1, 2)),
        Step::Stop(Ending::ActionsFailed { failed: 2 })
    );
    assert_eq!(
        play(plain(), &events(1, 0)),
        Step::Stop(Ending::Incomplete { unreadable: 1 })
    );
    assert_eq!(Ending::ActionsFailed { failed: 2 }.error("", "").unwrap(), "2 actions failed.");
    assert_eq!(
        Ending::Incomplete { unreadable: 1 }.error("", "").unwrap(),
        incomplete_scan_error(1)
    );
    assert_eq!(
        Ending::Mirrored.notice().unwrap(),
        "Done. The target now mirrors the source."
    );
    assert_eq!(Ending::Mirrored.error("", ""), None);
}

fn file(rel: &str) -> (UnixPath, FileEntry) {
    (path(rel), FileEntry { kind: EntryKind::File, size: 1, mtime: 0, mode: 0o644 })
}

fn dir(rel: &str) -> (UnixPath, FileEntry) {
    (path(rel), FileEntry { kind: EntryKind::Dir, size: 0, mtime: 0, mode: 0o755 })
}

#[test]
fn deletions_are_held_back_after_an_incomplete_scan() {
    let s = Tree::from_entries(vec![file("a"), file("was_dir")]);
    let d = Tree::from_entries(vec![file("stale"), dir("old"), dir("was_dir")]);
    let plan = prepare(&s, &d, 2, &PathSet::new(), 1, false).unwrap();
    // What is in the way goes all the same, and counts.
    assert_eq!(plan.held_back, Some(2));
    assert_eq!((plan.stats.delete_count, plan.removed), (1, 1));
    assert_eq!(plan.stats.copy_count, 2);
    assert_eq!(
        plan.actions,
        vec![
            Action::RemoveConflict(path("was_dir")),
            Action::Copy { rel: path("a"), size: 1 },
            Action::Copy { rel: path("was_dir"), size: 1 },
        ]
    );
    let plan = prepare(&s, &d, 2, &PathSet::new(), 1, true).unwrap();
    assert_eq!((plan.held_back, plan.stats.delete_count, plan.actions.len()), (None, 3, 5));
    assert_eq!(plan.removed, 3);
    let plan = prepare(&s, &d, 2, &PathSet::new(), 0, false).unwrap();
    assert_eq!((plan.held_back, plan.stats.delete_count), (None, 3));
    let plan = prepare(&s, &s, 2, &PathSet::new(), 4, false).unwrap();
    assert_eq!(plan.held_back, None);
    assert!(plan.actions.is_empty());
    let d = Tree::from_entries(vec![dir("was_dir")]);
    let plan = prepare(&s, &d, 2, &PathSet::new(), 1, false).unwrap();
    assert_eq!((plan.held_back, plan.stats.delete_count), (None, 1));
}

#[test]
fn a_limit_of_zero_forbids_the_removal_of_conflicts() {
    let s = Tree::from_entries(vec![file("was_dir")]);
    let d = Tree::from_entries(vec![file("stale"), dir("was_dir")]);
    let plan = prepare(&s, &d, 2, &PathSet::new(), 1, false).unwrap();
    let limited = Settings { max_delete: Some(0), yes: true, ..plain() };
    let told =
        Event::Planned { removed: plan.removed, actions: plan.actions.len() };
    assert_eq!(
        play(limited, &[ROOTS, Event::Done, scanned(1, 1, 2), told]),
        Step::Stop(Ending::TooManyDeletes { count: 1, max: 0 })
    );
    let asked = [ROOTS, Event::Done, scanned(1, 1, 2), told, Event::RootsDiffer(false)];
    assert_eq!(play(plain(), &asked), Step::Confirm);
}

#[test]
fn only_entries_of_the_same_type_stay() {
    let s = Tree::from_entries(vec![dir("d"), file("f"), file("was_dir"), dir("was_file")]);
    let d = Tree::from_entries(vec![
        dir("d"),
        file("d/old"),
        file("f"),
        dir("was_dir"),
        file("was_dir/a"),
        file("was_file"),
    ]);
    assert_eq!(count_gone(&s, &d), 4);
    assert_eq!(count_gone(&d, &s), 2);
    assert_eq!(count_gone(&s, &s), 0);
    assert_eq!(count_gone(&Tree::new(), &d), 6);
    assert_eq!(count_gone(&s, &Tree::new()), 0);
}

#[test]
fn the_limit_counts_what_lies_under_a_conflict() {
    let s = Tree::from_entries(vec![file("was_dir"), file("same")]);
    let d = Tree::from_entries(vec![
        file("same"),
        file("stale"),
        dir("was_dir"),
        file("was_dir/a"),
        dir("was_dir/b"),
        file("was_dir/b/c"),
    ]);
    let plan = prepare(&s, &d, 2, &PathSet::new(), 0, false).unwrap();
    assert_eq!((plan.stats.delete_count, plan.removed), (2, 5));
    let held = prepare(&s, &d, 2, &PathSet::new(), 1, false).unwrap();
    assert_eq!((held.stats.delete_count, held.removed, held.held_back), (1, 4, Some(1)));
    let told = Event::Planned { removed: plan.removed, actions: plan.actions.len() };
    let events = [ROOTS, Event::Done, scanned(0, 2, 6), told];
    let limited = |max| Settings { max_delete: Some(max), yes: true, ..plain() };
    assert_eq!(
        play(limited(4), &events),
        Step::Stop(Ending::TooManyDeletes { count: 5, max: 4 })
    );
    assert_eq!(play(limited(5), &events), Step::CompareRoots);
}

#[test]
fn warnings_and_questions() {
    assert_eq!(
        held_back_warning(3, 1),
        "Warning: 3 planned deletion(s) are skipped because 1 directory/directories are not readable (--ignore-errors forces them)."
    );
    assert_eq!(
        skipped_warning(2, 7),
        "Warning: 2 deletion(s) skipped because 7 action(s) failed (--ignore-errors forces them)."
    );
    assert_eq!(
        kept_warning("/t/old"),
        "Warning: directory not deleted, as it holds excluded entries: /t/old"
    );
    assert_eq!(
        confirm_question(12),
        "12 files/folders will be DELETED in the target. Continue? [y/N] "
    );
}

/// Resolves a path; `exists` gives the canonical form of what exists.
fn resolve(start: &str, exists: &[(&str, &str)]) -> Resolution {
    let mut resolver = Resolver::start(&path(start));
    loop {
        let asked = text(resolver.asked());
        let answer = match exists.iter().find(|(name, _)| *name == asked) {
            Some((_, canonical)) => Canonical::Found(path(canonical)),
            None => Canonical::NotFound,
        };
        match resolver.answer(answer) {
            Resolution::Ask => {}
            state => return state,
        }
    }
}

fn resolved(state: Resolution) -> String {
    match state {
        Resolution::Resolved(p) => text(&p),
        other => panic!("{other:?}"),
    }
}

#[test]
fn existing_paths_are_canonical() {
    assert_eq!(resolved(resolve("/link", &[("/link", "/real")])), "/real");
}

#[test]
fn the_missing_tail_is_appended() {
    assert_eq!(resolved(resolve("/t/missing", &[("/t", "/t")])), "/t/missing");
    assert_eq!(resolved(resolve("/t/a/b/c", &[("/t", "/real/t")])), "/real/t/a/b/c");
    assert_eq!(resolved(resolve("/a/b", &[("/", "/")])), "/a/b");
}

#[test]
fn a_bare_name_is_resolved_against_the_working_directory() {
    assert_eq!(resolved(resolve("nowhere", &[(".", "/home/me")])), "/home/me/nowhere");
    assert_eq!(resolved(resolve("a/b", &[(".", "/home/me")])), "/home/me/a/b");
}

#[test]
fn dots_in_the_missing_part_take_names_away() {
    let here = [(".", "/home/me"), ("/home/me", "/home/me"), ("/home", "/home")];
    assert_eq!(resolved(resolve("missing/../t", &here)), "/home/me/t");
    assert_eq!(resolved(resolve("missing/../../t", &here)), "/home/t");
    assert_eq!(resolved(resolve("a/b/../../t/x", &here)), "/home/me/t/x");
    assert_eq!(resolved(resolve("/no/../../t", &[("/", "/")])), "/t");
    // What is left exists, and is a symlink.
    let linked = [("/d", "/d"), ("/d/link", "/source")];
    assert_eq!(resolved(resolve("/d/missing/../link/t", &linked)), "/source/t");
}

#[test]
fn what_cannot_be_resolved_is_reported() {
    assert!(matches!(resolve("/a/..", &[]), Resolution::Unresolvable));
    assert!(matches!(resolve("x", &[]), Resolution::Unresolvable));
    let mut resolver = Resolver::start(&path("/a"));
    assert!(matches!(resolver.answer(Canonical::Error), Resolution::Failed));
}

#[test]
fn overlapping_directories_are_refused() {
    let check = |a: &str, b: &str| check_disjoint(&path(a), &path(b));
    assert_eq!(check("/a", "/a/"), Err(Overlap::Identical));
    assert_eq!(check("/a", "/a/b"), Err(Overlap::TargetInsideSource));
    assert_eq!(check("/a/b", "/a"), Err(Overlap::SourceInsideTarget));
    assert_eq!(check("/a/b", "/a/bc"), Ok(()));
    assert_eq!(check("/a", "/b"), Ok(()));
    assert_eq!(
        Overlap::Identical.error("/a", "/a"),
        "Source and target are identical: /a"
    );
    assert_eq!(
        Overlap::TargetInsideSource.error("/a", "/a/b"),
        "Target lies inside the source: /a contains /a/b"
    );
    assert_eq!(
        Overlap::SourceInsideTarget.error("/a/b", "/a"),
        "Source lies inside the target: /a contains /a/b (would delete the source!)"
    );
}
