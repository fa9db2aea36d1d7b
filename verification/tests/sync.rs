use dino_copy::filter::Filter;
use dino_copy::path::UnixPath;
use dino_copy::plan::Action;
use dino_copy::sync::{
    default_copy_jobs, dirs_to_sync, effective_jobs, holds_excluded, is_passable, link_start,
    link_step, meta_start, meta_step, record_error, removal, root_meta_differs, ExecOptions, ExecReport, Execution,
    LinkOp, LinkReply, MetaOp, NullSink, ProgressSink, Removal, RootMeta, Stage, Standing, Task, TaskEnd,
    TaskVerdict, MAX_STORED_ERRORS,
};
use dino_copy::tree::PathSet;

fn path(text: &str) -> UnixPath {
    UnixPath::from_text(text)
}

fn texts(set: &PathSet) -> Vec<String> {
    (0..set.len()).map(|i| text(set.path_at(i))).collect()
}

fn text(p: &UnixPath) -> String {
    String::from_utf8(p.as_bytes().clone()).unwrap()
}

#[test]
fn dirs_to_sync_collects_parents_of_created_entries() {
    let dest = path("/target");
    let actions = vec![
        Action::Copy { rel: path("sub/a.txt"), size: 1 },
        Action::Copy { rel: path("b.txt"), size: 1 },
        Action::CreateSymlink { rel: path("sub/link"), target: path("a.txt"), mtime: 0 },
        Action::CreateDir(path("new")),
    ];

    let dirs = dirs_to_sync(&dest, &actions);

    // sub appears twice and must only be synchronized once.
    assert_eq!(texts(&dirs), vec!["/target", "/target/sub"]);
}

#[test]
fn dirs_to_sync_ignores_actions_that_create_nothing() {
    let dest = path("/target");
    let actions = vec![
        Action::DeleteFile(path("gone.txt")),
        Action::DeleteDir(path("gone")),
        Action::SetFileMeta { rel: path("a.txt"), mode: 0o644 },
        Action::SetDirMeta { rel: path("sub"), mtime: 0, mode: 0o755 },
    ];

    assert!(dirs_to_sync(&dest, &actions).is_empty());
}

fn plan() -> Vec<Action> {
    vec![
        Action::RemoveConflict(path("x")),
        Action::CreateDir(path("keep")),
        Action::Copy { rel: path("keep/a.txt"), size: 3 },
        Action::CreateSymlink { rel: path("l"), target: path("t"), mtime: 9 },
        Action::SetFileMeta { rel: path("m"), mode: 0o600 },
        Action::DeleteFile(path("stale.txt")),
        Action::DeleteDir(path("old")),
        Action::SetDirMeta { rel: path("keep"), mtime: 5, mode: 0o755 },
    ]
}

fn labels(run: &Execution) -> Vec<String> {
    run.tasks().iter().map(|t| t.failure(&text(t.reported()), "e")).collect()
}

/// Walks through all stages, with a failure at each of the given ones.
fn walk(opts: ExecOptions, fail_at: &[Stage]) -> (Vec<(Stage, Vec<String>)>, Execution) {
    let mut run = Execution::new(&path("/s"), &path("/d"), &plan(), opts);
    let mut seen = Vec::new();
    while run.stage() != Stage::Over {
        let stage = run.stage();
        seen.push((stage, labels(&run)));
        if fail_at.contains(&stage) {
            run.task_failed(format!("{stage:?}"));
        }
        run.advance();
    }
    (seen, run)
}

#[test]
fn stages_take_up_the_plan_in_order() {
    let (seen, run) = walk(ExecOptions { jobs: 2, fsync: true, ignore_errors: false }, &[]);
    let expected = vec![
        (Stage::Conflicts, vec!["remove conflict /d/x: e"]),
        (Stage::Dirs, vec!["mkdir /d/keep: e"]),
        (Stage::Copies, vec!["copy keep/a.txt: e"]),
        (Stage::Links, vec!["symlink /d/l: e"]),
        (Stage::Modes, vec!["set file meta /d/m: e"]),
        (Stage::SyncDirs, vec!["fsync dir /d: e", "fsync dir /d/keep: e"]),
        (Stage::Deletes, vec!["rm /d/stale.txt: e", "rmdir /d/old: e"]),
        (Stage::DirMetas, vec!["set dir meta /d/keep: e"]),
    ];
    assert_eq!(seen.len(), expected.len());
    for (got, want) in seen.iter().zip(&expected) {
        assert_eq!(got.0, want.0);
        assert_eq!(&got.1, &want.1);
    }
    assert_eq!(run.report(), ExecReport { failed: 0, skipped_deletes: 0 });
}

#[test]
fn a_copy_leads_from_the_source_to_the_target() {
    let mut run = Execution::new(&path("/s/"), &path("/d"), &plan(), ExecOptions::default());
    run.advance();
    run.advance();
    assert_eq!(run.stage(), Stage::Copies);
    match &run.tasks()[0] {
        Task::Copy { rel, from, to } => {
            assert_eq!(text(rel), "keep/a.txt");
            assert_eq!(text(from), "/s/keep/a.txt");
            assert_eq!(text(to), "/d/keep/a.txt");
        }
        other => panic!("{other:?}"),
    }
}

#[test]
fn directories_are_only_synced_when_asked_for() {
    let (seen, _) = walk(ExecOptions::default(), &[]);
    assert_eq!(seen[5].0, Stage::SyncDirs);
    assert!(seen[5].1.is_empty());
}

#[test]
fn a_failure_before_the_deletes_skips_them() {
    let (seen, run) = walk(ExecOptions::default(), &[Stage::Copies]);
    assert!(!seen.iter().any(|(stage, _)| *stage == Stage::Deletes));
    assert!(seen.iter().any(|(stage, _)| *stage == Stage::DirMetas));
    assert_eq!(run.report(), ExecReport { failed: 1, skipped_deletes: 2 });
    assert_eq!(run.errors(), &vec!["Copies".to_string()]);
}

#[test]
fn ignoring_errors_deletes_all_the_same() {
    let opts = ExecOptions { ignore_errors: true, ..Default::default() };
    let (seen, run) = walk(opts, &[Stage::Copies]);
    assert!(seen.iter().any(|(stage, _)| *stage == Stage::Deletes));
    assert_eq!(run.report(), ExecReport { failed: 1, skipped_deletes: 0 });
}

#[test]
fn a_failure_in_the_deletes_skips_nothing() {
    let (_, run) = walk(ExecOptions::default(), &[Stage::Deletes]);
    assert_eq!(run.report(), ExecReport { failed: 1, skipped_deletes: 0 });
}

#[test]
fn stored_errors_are_capped() {
    let mut errors = Vec::new();
    for i in 0..MAX_STORED_ERRORS + 50 {
        record_error(&mut errors, format!("error {i}"));
    }
    assert_eq!(errors.len(), MAX_STORED_ERRORS + 1);
    assert_eq!(errors[0], "error 0");
    assert_eq!(errors[99], "error 99");
    assert_eq!(errors[100], "... further errors suppressed");
}

#[test]
fn the_null_sink_ignores_everything() {
    let sink = NullSink;
    sink.add_bytes(7);
    sink.set_current("name");
    sink.inc_files();
}

#[test]
fn jobs_depend_on_the_volume() {
    assert_eq!(default_copy_jobs(Some(true), Some(8)), 8);
    assert_eq!(default_copy_jobs(Some(true), None), 4);
    assert_eq!(default_copy_jobs(Some(false), Some(8)), 2);
    assert_eq!(default_copy_jobs(None, Some(8)), 2);
    assert_eq!(effective_jobs(0, 2), 2);
    assert_eq!(effective_jobs(5, 2), 5);
}

#[test]
fn root_metadata_is_compared_within_tolerance() {
    let meta = |mtime, mode| Some(RootMeta { mtime, mode });
    assert!(!root_meta_differs(meta(100, 0o40755), meta(102, 0o755), 2));
    assert!(root_meta_differs(meta(100, 0o40755), meta(103, 0o755), 2));
    assert!(root_meta_differs(meta(100, 0o40755), meta(100, 0o40700), 2));
    assert!(root_meta_differs(meta(100, 0o40755), None, 2));
    assert!(root_meta_differs(None, meta(100, 0o40755), 2));
    assert!(root_meta_differs(meta(i64::MAX, 0o755), meta(-1, 0o755), 2));
}

#[test]
fn links_replace_what_stands_in_their_place() {
    assert_eq!(link_start(&path("/d/l")), LinkOp::CreateParent);
    assert_eq!(link_start(&path("/")), LinkOp::Probe);
    let mut op = LinkOp::CreateParent;
    let mut seen = vec![op];
    while op != LinkOp::Created {
        let reply =
            if op == LinkOp::Probe { LinkReply::Occupied(true) } else { LinkReply::Done };
        op = link_step(op, reply);
        seen.push(op);
    }
    assert_eq!(
        seen,
        vec![
            LinkOp::CreateParent,
            LinkOp::Probe,
            LinkOp::Remove,
            LinkOp::Symlink,
            LinkOp::SetTime,
            LinkOp::Created,
        ]
    );
    assert_eq!(link_step(LinkOp::Probe, LinkReply::Occupied(false)), LinkOp::Symlink);
    assert_eq!(link_step(LinkOp::Symlink, LinkReply::Error), LinkOp::Failed);
}

#[test]
fn the_mtime_of_a_directory_is_set_before_its_mode() {
    let op = meta_start();
    assert_eq!(op, MetaOp::SetTime);
    let op = meta_step(op, true);
    assert_eq!(op, MetaOp::SetMode);
    assert_eq!(meta_step(op, true), MetaOp::Finished);
    assert_eq!(meta_step(op, false), MetaOp::Failed);
    assert_eq!(meta_step(MetaOp::SetTime, false), MetaOp::Failed);
}

#[test]
fn every_failure_is_counted_and_stored_as_long_as_there_is_room() {
    let mut run = Execution::new(&path("/s"), &path("/t"), &[], ExecOptions::default());
    assert!(run.errors().is_empty());
    for n in 1..=150usize {
        run.task_failed(format!("error {n}"));
        assert_eq!(run.report().failed, n as u64);
        assert_eq!(run.errors().len(), n.min(MAX_STORED_ERRORS + 1));
    }
}

#[test]
fn fsync_adds_nothing_but_directory_syncs() {
    let stages = |opts: ExecOptions| -> Vec<String> {
        let mut run = Execution::new(&path("/s"), &path("/t"), &plan(), opts);
        let mut seen = Vec::new();
        while run.stage() != Stage::Over {
            if run.stage() != Stage::SyncDirs {
                seen.push(format!("{:?}", run.tasks()));
            }
            run.advance();
        }
        assert_eq!(run.report(), ExecReport::default());
        seen
    };
    let plain = stages(ExecOptions::default());
    assert_eq!(plain, stages(ExecOptions { fsync: true, jobs: 7, ..ExecOptions::default() }));
}

#[test]
fn only_directories_are_removed_with_their_contents() {
    assert_eq!(removal(true, false), Removal::Tree);
    assert_eq!(removal(true, true), Removal::Refused);
    assert_eq!(removal(false, false), Removal::Entry);
}

#[test]
fn excluded_entries_below_a_directory_are_found() {
    let filter = Filter::new(&[".DS_Store".to_string(), "a/keep".to_string()]).unwrap();
    let root = path("/target");
    let held = |paths: &[&str]| {
        holds_excluded(&filter, &root, &paths.iter().map(|p| path(p)).collect())
    };
    assert!(!held(&[]));
    assert!(!held(&["/target/a/b", "/target/a/b/c"]));
    assert!(held(&["/target/a/b", "/target/a/b/.DS_Store"]));
    assert!(held(&["/target/a/keep"]));
    // Path patterns count from the root of the target.
    assert!(!held(&["/target/b/a/keep"]));
    assert!(!held(&["/elsewhere/.DS_Store"]));
}

#[test]
fn what_follows_from_how_a_task_went() {
    let copy = Task::Copy { rel: path("f"), from: path("/s/f"), to: path("/t/f") };
    let link = Task::Link { text: path("x"), at: path("/t/l"), mtime: 0 };
    let dir = Task::RemoveDir { target: path("/t/d") };
    let file = Task::RemoveFile { target: path("/t/g") };
    assert_eq!(copy.verdict(TaskEnd::Done), TaskVerdict::FileDone);
    assert_eq!(link.verdict(TaskEnd::Done), TaskVerdict::FileDone);
    assert_eq!(copy.verdict(TaskEnd::Error), TaskVerdict::Failed);
    assert_eq!(copy.verdict(TaskEnd::Refused), TaskVerdict::Failed);
    assert_eq!(dir.verdict(TaskEnd::Done), TaskVerdict::Done);
    assert_eq!(dir.verdict(TaskEnd::Refused), TaskVerdict::DirKept);
    assert_eq!(dir.verdict(TaskEnd::Error), TaskVerdict::Failed);
    assert_eq!(file.verdict(TaskEnd::Done), TaskVerdict::Done);
}

#[test]
fn tasks_know_the_directories_they_go_through() {
    let way = |task: Task| -> Vec<String> { task.way(&path("/t")).iter().map(text).collect() };
    let copy = Task::Copy { rel: path("a/b/f"), from: path("/s/a/b/f"), to: path("/t/a/b/f") };
    assert_eq!(way(copy), vec!["/t/a/b", "/t/a"]);
    assert_eq!(way(Task::RemoveFile { target: path("/t/f") }), Vec::<String>::new());
    assert_eq!(way(Task::SyncDir { dir: path("/t") }), Vec::<String>::new());
    assert_eq!(way(Task::CreateDir { target: path("/t/a/b") }), vec!["/t/a", "/t/a/b"]);
    assert_eq!(
        way(Task::SetDirMeta { target: path("/t/a"), mtime: 0, mode: 0o755 }),
        vec!["/t/a"]
    );
    assert!(is_passable(&vec![]));
    assert!(is_passable(&vec![Standing::Nothing, Standing::Dir]));
    assert!(!is_passable(&vec![Standing::Dir, Standing::Other]));
}
