use dino_copy::entry::{EntryKind, FileEntry};
use dino_copy::path::UnixPath;
use dino_copy::plan::{
    checksum_candidates, diff, diff_checked, diff_with_forced, forced_copies,
    times_within, unchanged, Action, Stats,
};
use dino_copy::tree::{PathSet, Tree};

fn path(text: &str) -> UnixPath {
    UnixPath::from_text(text)
}

/// The helpers return (relative path, entry): the path is the key of the tree
/// and does not live in the FileEntry itself.
fn file(rel: &str, size: u64, mtime: i64) -> (UnixPath, FileEntry) {
    (path(rel), FileEntry { kind: EntryKind::File, size, mtime, mode: 0o644 })
}

fn dir(rel: &str) -> (UnixPath, FileEntry) {
    (path(rel), FileEntry { kind: EntryKind::Dir, size: 0, mtime: 0, mode: 0o755 })
}

fn symlink(rel: &str, target: &str) -> (UnixPath, FileEntry) {
    (
        path(rel),
        FileEntry {
            kind: EntryKind::Symlink { target: path(target) },
            size: 0,
            mtime: 0,
            mode: 0o777,
        },
    )
}

fn map(entries: Vec<(UnixPath, FileEntry)>) -> Tree {
    Tree::from_entries(entries)
}

/// Index of an action in the list (for ordering assertions).
fn pos(actions: &[Action], pred: impl Fn(&Action) -> bool) -> Option<usize> {
    actions.iter().position(pred)
}

#[test]
fn copies_new_file() {
    let s = map(vec![file("a.txt", 10, 100)]);
    let d = map(vec![]);
    let (actions, stats) = diff(&s, &d, 1);
    assert!(actions.contains(&Action::Copy { rel: path("a.txt"), size: 10 }));
    assert_eq!(stats.copy_count, 1);
    assert_eq!(stats.copy_bytes, 10);
}

#[test]
fn skips_unchanged_file() {
    let s = map(vec![file("a.txt", 10, 100)]);
    let d = map(vec![file("a.txt", 10, 100)]);
    let (actions, stats) = diff(&s, &d, 1);
    assert!(!actions.iter().any(|a| matches!(a, Action::Copy { .. })));
    assert_eq!(stats.skip_count, 1);
}

#[test]
fn copies_changed_size() {
    let s = map(vec![file("a.txt", 20, 100)]);
    let d = map(vec![file("a.txt", 10, 100)]);
    let (actions, _) = diff(&s, &d, 1);
    assert!(actions.contains(&Action::Copy { rel: path("a.txt"), size: 20 }));
}

#[test]
fn mtime_within_tolerance_skips() {
    let s = map(vec![file("a.txt", 10, 100)]);
    let d = map(vec![file("a.txt", 10, 101)]);
    let (_, stats) = diff(&s, &d, 1);
    assert_eq!(stats.skip_count, 1);
}

#[test]
fn mtime_beyond_tolerance_copies() {
    let s = map(vec![file("a.txt", 10, 100)]);
    let d = map(vec![file("a.txt", 10, 103)]);
    let (_, stats) = diff(&s, &d, 1);
    assert_eq!(stats.copy_count, 1);
}

#[test]
fn mode_only_change_emits_set_file_meta_not_copy() {
    // chmod on the source only changes the ctime: size+mtime stay the same.
    // The drift has to be aligned via SetFileMeta, not by copying.
    let mut sf = file("a.txt", 10, 100);
    sf.1.mode = 0o600;
    let df = file("a.txt", 10, 100); // helper: mode 0o644
    let s = map(vec![sf]);
    let d = map(vec![df]);
    let (actions, stats) = diff(&s, &d, 1);
    assert!(!actions.iter().any(|a| matches!(a, Action::Copy { .. })));
    assert!(actions.contains(&Action::SetFileMeta {
        rel: path("a.txt"),
        mode: 0o600,
    }));
    assert_eq!(stats.meta_count, 1);
    assert_eq!(stats.skip_count, 1, "the file still counts as not copied");
}

#[test]
fn equal_mode_emits_no_set_file_meta() {
    let s = map(vec![file("a.txt", 10, 100)]);
    let d = map(vec![file("a.txt", 10, 100)]);
    let (actions, stats) = diff(&s, &d, 1);
    assert!(actions.is_empty(), "a no-op run must produce no actions: {actions:?}");
    assert_eq!(stats.meta_count, 0);
}

#[test]
fn deletes_extra_file_on_dest() {
    let s = map(vec![]);
    let d = map(vec![file("old.txt", 5, 100)]);
    let (actions, stats) = diff(&s, &d, 1);
    assert!(actions.contains(&Action::DeleteFile(path("old.txt"))));
    assert_eq!(stats.delete_count, 1);
}

#[test]
fn creates_missing_dir() {
    let s = map(vec![dir("sub")]);
    let d = map(vec![]);
    let (actions, stats) = diff(&s, &d, 1);
    assert!(actions.contains(&Action::CreateDir(path("sub"))));
    assert_eq!(stats.mkdir_count, 1);
}

#[test]
fn deletes_extra_dir_deepest_first() {
    let s = map(vec![]);
    let d = map(vec![dir("a"), dir("a/b")]);
    let (actions, _) = diff(&s, &d, 1);
    let del: Vec<&Action> = actions.iter().filter(|a| matches!(a, Action::DeleteDir(_))).collect();
    assert_eq!(del[0], &Action::DeleteDir(path("a/b")));
    assert_eq!(del[1], &Action::DeleteDir(path("a")));
}

#[test]
fn file_on_source_dir_on_dest_removes_conflict_before_copy() {
    // A has file "x", B has directory "x".
    let s = map(vec![file("x", 3, 100)]);
    let d = map(vec![dir("x")]);
    let (actions, _) = diff(&s, &d, 1);
    let rm = pos(&actions, |a| a == &Action::RemoveConflict(path("x")));
    let cp = pos(&actions, |a| matches!(a, Action::Copy { rel, .. } if rel == &path("x")));
    assert!(rm.is_some(), "expected RemoveConflict for x");
    assert!(cp.is_some(), "expected Copy for x");
    assert!(rm.unwrap() < cp.unwrap(), "RemoveConflict must run before Copy");
    // There must be NO DeleteDir(x) (conflict instead of a normal delete).
    assert!(!actions.contains(&Action::DeleteDir(path("x"))));
}

#[test]
fn dir_on_source_file_on_dest_removes_conflict_before_mkdir() {
    // A has directory "y", B has file "y".
    let s = map(vec![dir("y")]);
    let d = map(vec![file("y", 3, 100)]);
    let (actions, _) = diff(&s, &d, 1);
    let rm = pos(&actions, |a| a == &Action::RemoveConflict(path("y")));
    let mk = pos(&actions, |a| a == &Action::CreateDir(path("y")));
    assert!(rm.is_some() && mk.is_some());
    assert!(rm.unwrap() < mk.unwrap(), "RemoveConflict must run before CreateDir");
}

#[test]
fn new_symlink_is_created() {
    let s = map(vec![symlink("link", "target")]);
    let d = map(vec![]);
    let (actions, stats) = diff(&s, &d, 1);
    assert!(actions.contains(&Action::CreateSymlink {
        rel: path("link"),
        target: path("target"),
        mtime: 0,
    }));
    assert_eq!(stats.copy_count, 1);
}

#[test]
fn identical_symlink_is_skipped() {
    let s = map(vec![symlink("link", "target")]);
    let d = map(vec![symlink("link", "target")]);
    let (actions, _) = diff(&s, &d, 1);
    assert!(!actions.iter().any(|a| matches!(a, Action::CreateSymlink { .. })));
}

#[test]
fn symlink_mtime_drift_is_recreated() {
    // Same link target, but mtime outside the tolerance -> recreate it
    // (recreating applies the source mtime).
    let mut sl = symlink("link", "target");
    sl.1.mtime = 100;
    let mut dl = symlink("link", "target");
    dl.1.mtime = 500;
    let s = map(vec![sl]);
    let d = map(vec![dl]);
    let (actions, _) = diff(&s, &d, 1);
    assert!(actions.contains(&Action::CreateSymlink {
        rel: path("link"),
        target: path("target"),
        mtime: 100,
    }));
}

#[test]
fn symlink_mtime_within_tolerance_is_skipped() {
    let mut sl = symlink("link", "target");
    sl.1.mtime = 100;
    let mut dl = symlink("link", "target");
    dl.1.mtime = 101;
    let s = map(vec![sl]);
    let d = map(vec![dl]);
    let (actions, _) = diff(&s, &d, 1);
    assert!(actions.is_empty(), "within the tolerance: no action, was {actions:?}");
}

#[test]
fn changed_symlink_target_is_recreated() {
    let s = map(vec![symlink("link", "new")]);
    let d = map(vec![symlink("link", "old")]);
    let (actions, _) = diff(&s, &d, 1);
    assert!(actions.contains(&Action::CreateSymlink {
        rel: path("link"),
        target: path("new"),
        mtime: 0,
    }));
}

#[test]
fn dir_meta_emitted_deepest_first_and_last() {
    let mut a_root = dir("a");
    a_root.1.mtime = 500;
    a_root.1.mode = 0o700;
    let mut a_b = dir("a/b");
    a_b.1.mtime = 600;
    a_b.1.mode = 0o750;
    let s = map(vec![a_root, a_b]);
    let d = map(vec![]);
    let (actions, _) = diff(&s, &d, 1);

    let metas: Vec<&Action> = actions
        .iter()
        .filter(|a| matches!(a, Action::SetDirMeta { .. }))
        .collect();
    assert_eq!(metas.len(), 2);
    // Deepest first.
    assert_eq!(
        metas[0],
        &Action::SetDirMeta { rel: path("a/b"), mtime: 600, mode: 0o750 }
    );
    assert_eq!(
        metas[1],
        &Action::SetDirMeta { rel: path("a"), mtime: 500, mode: 0o700 }
    );
    // SetDirMeta runs after CreateDir.
    let last_mkdir = actions.iter().rposition(|a| matches!(a, Action::CreateDir(_))).unwrap();
    let first_meta = pos(&actions, |a| matches!(a, Action::SetDirMeta { .. })).unwrap();
    assert!(last_mkdir < first_meta);
}

#[test]
fn identical_trees_with_subdirs_produce_no_actions() {
    // A no-op run must produce no actions - otherwise the "nothing to do"
    // path is unreachable and dir metadata gets rewritten needlessly on
    // every run (writes on HDDs).
    let mut sd = dir("sub");
    sd.1.mtime = 500;
    sd.1.mode = 0o755;
    let s = map(vec![sd.clone(), file("sub/a.txt", 10, 100)]);
    let d = map(vec![sd, file("sub/a.txt", 10, 100)]);
    let (actions, _) = diff(&s, &d, 1);
    assert!(actions.is_empty(), "expected no actions, was: {actions:?}");
}

#[test]
fn dir_meta_emitted_when_meta_differs() {
    let mut src_dir = dir("sub");
    src_dir.1.mtime = 500;
    src_dir.1.mode = 0o700;
    let mut dst_dir = dir("sub");
    dst_dir.1.mtime = 999; // differs
    dst_dir.1.mode = 0o755; // differs
    let s = map(vec![src_dir]);
    let d = map(vec![dst_dir]);
    let (actions, _) = diff(&s, &d, 1);
    assert!(actions.contains(&Action::SetDirMeta {
        rel: path("sub"),
        mtime: 500,
        mode: 0o700,
    }));
}

#[test]
fn dir_meta_emitted_when_copy_touches_dir() {
    // A copy into "sub" changes its mtime -> the metadata has to be reset
    // afterwards, even though it currently matches.
    let mut sd = dir("sub");
    sd.1.mtime = 500;
    let s = map(vec![sd.clone(), file("sub/new.txt", 10, 100)]);
    let d = map(vec![sd]);
    let (actions, _) = diff(&s, &d, 1);
    assert!(
        actions.iter().any(|a| matches!(
            a,
            Action::SetDirMeta { rel, .. } if rel == &path("sub")
        )),
        "expected SetDirMeta for sub, was: {actions:?}"
    );
}

#[test]
fn dir_meta_emitted_when_delete_touches_dir() {
    let mut sd = dir("sub");
    sd.1.mtime = 500;
    let s = map(vec![sd.clone()]);
    let d = map(vec![sd, file("sub/stale.txt", 10, 100)]);
    let (actions, _) = diff(&s, &d, 1);
    assert!(
        actions.iter().any(|a| matches!(
            a,
            Action::SetDirMeta { rel, .. } if rel == &path("sub")
        )),
        "expected SetDirMeta for sub, was: {actions:?}"
    );
}

#[test]
fn forced_copy_emits_set_dir_meta_for_parent() {
    let mut sd = dir("sub");
    sd.1.mtime = 500;
    let s = map(vec![sd.clone(), file("sub/a.txt", 10, 100)]);
    let d = map(vec![sd, file("sub/a.txt", 10, 100)]);
    let mut forced = PathSet::new();
    forced.insert(path("sub/a.txt"));
    let (actions, stats) = diff_with_forced(&s, &d, 1, &forced);
    assert_eq!(stats.copy_count, 1, "expected a forced copy: {actions:?}");
    assert!(
        actions.iter().any(|a| matches!(
            a,
            Action::SetDirMeta { rel, .. } if rel == &path("sub")
        )),
        "expected SetDirMeta for sub: {actions:?}"
    );
}


/// The kinds of the actions in their order, for whole plans.
fn summary(actions: &[Action]) -> Vec<String> {
    actions.iter().map(|a| format!("{}", describe(a))).collect()
}

fn text(p: &UnixPath) -> String {
    String::from_utf8(p.as_bytes().clone()).unwrap()
}

fn describe(a: &Action) -> String {
    match a {
        Action::RemoveConflict(rel) => format!("conflict {}", text(rel)),
        Action::CreateDir(rel) => format!("mkdir {}", text(rel)),
        Action::Copy { rel, size } => format!("copy {} {}", text(rel), size),
        Action::CreateSymlink { rel, target, mtime } => {
            format!("link {} {} {}", text(rel), text(target), mtime)
        }
        Action::DeleteFile(rel) => format!("rm {}", text(rel)),
        Action::DeleteDir(rel) => format!("rmdir {}", text(rel)),
        Action::SetDirMeta { rel, mtime, mode } => {
            format!("dirmeta {} {} {:o}", text(rel), mtime, mode)
        }
        Action::SetFileMeta { rel, mode } => format!("mode {} {:o}", text(rel), mode),
    }
}

#[test]
fn a_whole_plan_in_its_order() {
    let mut quiet = file("quiet.txt", 4, 10);
    quiet.1.mode = 0o600;
    let s = map(vec![
        dir("new"),
        dir("new/deep"),
        file("new/deep/f", 7, 5),
        symlink("link", "quiet.txt"),
        quiet,
        file("was_dir", 3, 5),
        dir("was_file"),
    ]);
    let d = map(vec![
        file("quiet.txt", 4, 10),
        dir("was_dir"),
        file("was_dir/inside", 1, 1),
        file("was_file", 1, 1),
        dir("gone"),
        dir("gone/deeper"),
        file("gone/x", 1, 1),
        symlink("old_link", "x"),
    ]);
    let (actions, stats) = diff(&s, &d, 2);
    assert_eq!(
        summary(&actions),
        vec![
            "conflict was_dir",
            "conflict was_file",
            "mkdir new",
            "mkdir was_file",
            "mkdir new/deep",
            "copy new/deep/f 7",
            "copy was_dir 3",
            "link link quiet.txt 0",
            "mode quiet.txt 600",
            "rm gone/x",
            "rm old_link",
            "rmdir gone/deeper",
            "rmdir gone",
            "dirmeta new/deep 0 755",
            "dirmeta new 0 755",
            "dirmeta was_file 0 755",
        ]
    );
    assert_eq!(
        stats,
        Stats {
            copy_count: 3,
            copy_bytes: 10,
            delete_count: 6,
            mkdir_count: 3,
            skip_count: 1,
            meta_count: 1,
        }
    );
}

#[test]
fn what_goes_with_a_conflict_is_not_deleted_again() {
    let s = map(vec![file("x", 3, 100)]);
    let d = map(vec![dir("x"), dir("x/y"), file("x/y/z", 1, 1), file("xy", 1, 1)]);
    let (actions, stats) = diff(&s, &d, 1);
    assert_eq!(summary(&actions), vec!["conflict x", "copy x 3", "rm xy"]);
    assert_eq!(stats.delete_count, 2);
}

#[test]
fn a_tree_needs_no_action_against_itself() {
    let entries = || {
        vec![dir("a"), dir("a/b"), file("a/b/c", 9, 77), symlink("a/l", "b"), file("z", 0, 0)]
    };
    let (actions, stats) = diff(&map(entries()), &map(entries()), 0);
    assert!(actions.is_empty());
    assert_eq!(stats.skip_count, 2);
    assert_eq!(stats.delete_count, 0);
}

#[test]
fn a_negative_tolerance_matches_nothing() {
    let (actions, _) = diff(&map(vec![file("a", 1, 5)]), &map(vec![file("a", 1, 5)]), -1);
    assert_eq!(summary(&actions), vec!["copy a 1"]);
}

#[test]
fn forced_paths_that_are_no_source_files_change_nothing() {
    let s = map(vec![dir("d"), file("a", 1, 5)]);
    let d = map(vec![dir("d"), file("a", 1, 5)]);
    let mut forced = PathSet::new();
    forced.insert(path("d"));
    forced.insert(path("nowhere"));
    let (actions, _) = diff_with_forced(&s, &d, 0, &forced);
    assert!(actions.is_empty());
}

#[test]
fn forced_files_are_copied_though_unchanged() {
    let s = map(vec![file("a", 1, 5), file("b", 2, 5)]);
    let d = map(vec![file("a", 1, 5), file("b", 2, 5)]);
    let mut forced = PathSet::new();
    forced.insert(path("./b"));
    forced.insert(path("b/"));
    let (actions, stats) = diff_with_forced(&s, &d, 0, &forced);
    assert_eq!(summary(&actions), vec!["copy b 2"]);
    assert_eq!((stats.copy_count, stats.copy_bytes, stats.skip_count), (1, 2, 1));
}

#[test]
fn figures_add_up() {
    let s = map(vec![file("a", 1, 5), file("b", 2, 5), file("c", 4, 5), file("d/e", 8, 5)]);
    let d = map(vec![file("a", 1, 5), file("b", 3, 5), file("z", 1, 1)]);
    let (actions, stats) = diff(&s, &d, 0);
    let sizes: Vec<u64> = actions
        .iter()
        .filter_map(|a| match a {
            Action::Copy { size, .. } => Some(*size),
            _ => None,
        })
        .collect();
    assert_eq!(sizes, vec![2, 4, 8]);
    assert_eq!(stats.copy_bytes, 14);
    assert_eq!(stats.skip_count + sizes.len() as u64, 4);
    assert_eq!(stats.delete_count, 1);
}

#[test]
fn actions_of_a_kind_go_in_the_order_of_their_paths() {
    let s = map(vec![
        dir("m"),
        dir("b"),
        dir("b/z"),
        dir("b/c"),
        file("f2", 1, 1),
        file("f1", 1, 1),
    ]);
    let d = map(vec![dir("y"), dir("x"), dir("x/2"), dir("x/1")]);
    let (actions, _) = diff(&s, &d, 0);
    let names = |kind: &str| -> Vec<String> {
        summary(&actions).into_iter().filter(|a| a.starts_with(kind)).collect()
    };
    assert_eq!(names("mkdir"), vec!["mkdir b", "mkdir m", "mkdir b/c", "mkdir b/z"]);
    assert_eq!(names("rmdir"), vec!["rmdir x/1", "rmdir x/2", "rmdir x", "rmdir y"]);
    assert_eq!(names("copy"), vec!["copy f1 1", "copy f2 1"]);
}

#[test]
fn times_may_lie_as_far_apart_as_they_can() {
    let s = map(vec![file("a", 0, i64::MAX)]);
    let d = map(vec![file("a", 0, -1)]);
    assert!(!unchanged(&file("a", 0, i64::MAX).1, &file("a", 0, -1).1, 2));
    assert!(!unchanged(&file("a", 0, i64::MIN).1, &file("a", 0, i64::MAX).1, i64::MAX));
    assert!(unchanged(&file("a", 0, -1).1, &file("a", 0, i64::MAX - 1).1, i64::MAX));
    let (actions, _) = diff_checked(&s, &d, 2, &PathSet::new()).unwrap();
    assert_eq!(summary(&actions), vec!["copy a 0"]);
    assert!(checksum_candidates(&s, &d, 2).is_empty());
}

#[test]
fn more_bytes_than_can_be_counted_are_reported() {
    let s = map(vec![file("a", u64::MAX, 0), file("b", 1, 0)]);
    assert!(diff_checked(&s, &Tree::new(), 2, &PathSet::new()).is_none());
    let s = map(vec![file("a", u64::MAX, 0), file("b", 0, 0)]);
    let (_, stats) = diff_checked(&s, &Tree::new(), 2, &PathSet::new()).unwrap();
    assert_eq!(stats.copy_bytes, u64::MAX);
}

#[test]
fn unchanged_looks_at_size_and_time() {
    let a = file("a", 10, 100).1;
    assert!(unchanged(&a, &file("a", 10, 102).1, 2));
    assert!(!unchanged(&a, &file("a", 10, 103).1, 2));
    assert!(!unchanged(&a, &file("a", 11, 100).1, 2));
    assert!(times_within(-3, 4, 7));
    assert!(!times_within(-3, 4, 6));
}

#[test]
fn only_seemingly_unchanged_files_are_candidates() {
    let s = map(vec![
        file("same", 1, 5),
        file("near", 1, 5),
        file("far", 1, 5),
        file("size", 1, 5),
        file("new", 1, 5),
        dir("dir"),
        file("kind", 0, 0),
    ]);
    let d = map(vec![
        file("same", 1, 5),
        file("near", 1, 7),
        file("far", 1, 8),
        file("size", 2, 5),
        dir("dir"),
        dir("kind"),
    ]);
    let list = checksum_candidates(&s, &d, 2);
    let names: Vec<String> = list.iter().map(text).collect();
    assert_eq!(names, vec!["near", "same"]);
    let forced = forced_copies(&list, &vec![true, false]);
    assert_eq!(forced.len(), 1);
    assert!(forced.contains(&path("near")));
    assert!(!forced.contains(&path("same")));
}
