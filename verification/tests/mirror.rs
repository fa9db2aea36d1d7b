use dino_copy::entry::{EntryKind, FileEntry};
use dino_copy::path::UnixPath;
use dino_copy::plan::{diff, diff_with_forced, Action};
use dino_copy::resolve::check_disjoint;
use dino_copy::session::{drop_deletes, prepare};
use dino_copy::temp::temp_path;
use dino_copy::tree::{PathSet, Tree};
use std::collections::BTreeMap;

/// What stands at one place of a pretended disk.
#[derive(Clone, Debug, PartialEq)]
struct Node {
    kind: EntryKind,
    mtime: i64,
    mode: u32,
    data: String,
}

type Disk = BTreeMap<String, Node>;

/// The mtime that a directory gets when something in it changes.
const NOW: i64 = 1_000_000;

fn path(text: &str) -> UnixPath {
    UnixPath::from_text(text)
}

fn text(p: &UnixPath) -> String {
    String::from_utf8(p.as_bytes().clone()).unwrap()
}

fn file(data: &str, mtime: i64) -> Node {
    Node { kind: EntryKind::File, mtime, mode: 0o644, data: data.to_string() }
}

fn dir(mtime: i64) -> Node {
    Node { kind: EntryKind::Dir, mtime, mode: 0o755, data: String::new() }
}

fn link(target: &str, mtime: i64) -> Node {
    Node {
        kind: EntryKind::Symlink { target: path(target) },
        mtime,
        mode: 0o777,
        data: String::new(),
    }
}

fn disk(entries: Vec<(&str, Node)>) -> Disk {
    entries.into_iter().map(|(p, n)| (p.to_string(), n)).collect()
}

fn scan(disk: &Disk, hidden: &[&str]) -> Tree {
    Tree::from_entries(
        disk.iter()
            .filter(|(p, _)| !hidden.contains(&p.as_str()))
            .map(|(p, n)| {
                let entry = FileEntry {
                    kind: n.kind.clone(),
                    size: n.data.len() as u64,
                    mtime: n.mtime,
                    mode: n.mode,
                };
                (path(p), entry)
            })
            .collect(),
    )
}

fn parent(place: &str) -> Option<String> {
    place.rfind('/').map(|i| place[..i].to_string())
}

fn touch(disk: &mut Disk, place: &str) {
    if let Some(up) = parent(place) {
        let node = disk.get_mut(&up).expect("the directory is there");
        assert_eq!(node.kind, EntryKind::Dir, "never through a link");
        node.mtime = NOW;
    }
}

fn prune(disk: &mut Disk, place: &str) {
    let below = format!("{place}/");
    assert!(disk.contains_key(place), "{place} is there to be removed");
    disk.retain(|p, _| p != place && !p.starts_with(&below));
}

/// Carries out a plan, as it stands, on a pretended disk.
fn carry_out(to: &mut Disk, from: &Disk, actions: &[Action]) {
    carry_out_sparing(to, from, &[], actions);
}

/// As [`carry_out`], but nothing goes that holds one of the `spared` places.
fn carry_out_sparing(to: &mut Disk, from: &Disk, spared: &[&str], actions: &[Action]) {
    for action in actions {
        match action {
            Action::RemoveConflict(rel) => {
                prune(to, &text(rel));
                touch(to, &text(rel));
            }
            Action::CreateDir(rel) => {
                touch(to, &text(rel));
                assert!(to.insert(text(rel), dir(NOW)).is_none());
            }
            Action::Copy { rel, .. } => {
                touch(to, &text(rel));
                to.insert(text(rel), from[&text(rel)].clone());
            }
            Action::CreateSymlink { rel, target, mtime } => {
                touch(to, &text(rel));
                to.insert(text(rel), link(&text(target), *mtime));
            }
            Action::SetFileMeta { rel, mode } => to.get_mut(&text(rel)).unwrap().mode = *mode,
            Action::DeleteFile(rel) => {
                assert_ne!(to.remove(&text(rel)).unwrap().kind, EntryKind::Dir);
                touch(to, &text(rel));
            }
            Action::DeleteDir(rel) => {
                let below = format!("{}/", text(rel));
                if !to.keys().any(|p| p.starts_with(&below) && spared.contains(&p.as_str())) {
                    prune(to, &text(rel));
                    touch(to, &text(rel));
                }
            }
            Action::SetDirMeta { rel, mtime, mode } => {
                let node = to.get_mut(&text(rel)).unwrap();
                assert_eq!(node.kind, EntryKind::Dir);
                node.mtime = *mtime;
                node.mode = *mode;
            }
        }
    }
}

fn source() -> Disk {
    let mut private = file("secret", 40);
    private.mode = 0o600;
    disk(vec![
        ("a", dir(10)),
        ("a/b", dir(20)),
        ("a/b/c.txt", file("contents", 30)),
        ("a/private", private),
        ("link", link("a/b", 50)),
        ("was_dir", file("now a file", 60)),
        ("was_link", dir(70)),
        ("was_link/x", file("x", 80)),
        ("zero", file("", 90)),
    ])
}

fn target() -> Disk {
    disk(vec![
        ("a", dir(10)),
        ("a/old", dir(1)),
        ("a/old/deep", dir(1)),
        ("a/old/deep/f", file("f", 1)),
        ("a/private", file("secret", 40)),
        ("link", link("elsewhere", 50)),
        ("stale", file("s", 1)),
        ("was_dir", dir(1)),
        ("was_dir/inside", file("i", 1)),
        ("was_link", link("a", 1)),
        ("zero", file("", 90)),
    ])
}

#[test]
fn carrying_out_a_plan_gives_a_mirror() {
    let from = source();
    let mut to = target();
    let (actions, _) = diff(&scan(&from, &[]), &scan(&to, &[]), 2);
    carry_out(&mut to, &from, &actions);
    assert_eq!(to, from);
    let (again, stats) = diff(&scan(&from, &[]), &scan(&to, &[]), 2);
    assert!(again.is_empty(), "{again:?}");
    assert_eq!(stats.skip_count, 5);
}

#[test]
fn a_mirror_onto_nothing_and_of_nothing() {
    let from = source();
    let mut to = Disk::new();
    let (actions, _) = diff(&scan(&from, &[]), &scan(&to, &[]), 0);
    carry_out(&mut to, &from, &actions);
    assert_eq!(to, from);
    let (actions, stats) = diff(&Tree::new(), &scan(&to, &[]), 0);
    carry_out(&mut to, &Disk::new(), &actions);
    assert!(to.is_empty());
    assert_eq!(stats.delete_count, 9);
}

#[test]
fn same_size_and_time_need_a_forced_copy() {
    let from = disk(vec![("d", dir(5)), ("d/f", file("abc", 7))]);
    let mut to = disk(vec![("d", dir(5)), ("d/f", file("xyz", 7))]);
    let (actions, _) = diff(&scan(&from, &[]), &scan(&to, &[]), 2);
    assert!(actions.is_empty());
    let mut forced = PathSet::new();
    forced.insert(path("d/f"));
    let (actions, _) = diff_with_forced(&scan(&from, &[]), &scan(&to, &[]), 2, &forced);
    carry_out(&mut to, &from, &actions);
    assert_eq!(to, from);
}

#[test]
fn hidden_entries_outlive_a_run() {
    let hidden = ["a/.hidden", "a/old/.hidden"];
    let from = source();
    let mut to = target();
    to.insert("a/.hidden".to_string(), file("h", 3));
    to.insert("a/old/.hidden".to_string(), file("h", 3));
    let (actions, _) = diff(&scan(&from, &hidden), &scan(&to, &hidden), 2);
    carry_out_sparing(&mut to, &from, &hidden, &actions);
    // A directory that the source lacks stays for what is hidden in it. A second
    // run does no more than try again.
    let (again, _) = diff(&scan(&from, &hidden), &scan(&to, &hidden), 2);
    assert_eq!(
        again,
        vec![
            Action::DeleteDir(path("a/old")),
            Action::SetDirMeta { rel: path("a"), mtime: 10, mode: 0o755 },
        ]
    );
    assert_eq!(to.remove("a/old/.hidden"), Some(file("h", 3)));
    assert_eq!(to.remove("a/.hidden"), Some(file("h", 3)));
    assert_eq!(to.remove("a/old").unwrap().kind, EntryKind::Dir);
    assert_eq!(to, from);
}

#[test]
fn special_files_go_with_their_directory() {
    // A scan records no special file, but nothing spares one either.
    let unseen = ["a/old/fifo"];
    let from = source();
    let mut to = target();
    to.insert("a/old/fifo".to_string(), file("", 3));
    let (actions, _) = diff(&scan(&from, &unseen), &scan(&to, &unseen), 2);
    carry_out_sparing(&mut to, &from, &["a/.hidden"], &actions);
    assert_eq!(to, from);
    let (again, _) = diff(&scan(&from, &unseen), &scan(&to, &unseen), 2);
    assert!(again.is_empty(), "{again:?}");
}

#[test]
fn copies_may_run_backwards() {
    let from = source();
    let mut to = Disk::new();
    let (mut actions, _) = diff(&scan(&from, &[]), &scan(&to, &[]), 2);
    let is_copy = |a: &Action| matches!(a, Action::Copy { .. });
    let first = actions.iter().position(is_copy).unwrap();
    let last = actions.iter().rposition(is_copy).unwrap();
    assert!(actions[first..=last].iter().all(is_copy));
    assert_eq!(last - first, 4);
    actions[first..=last].reverse();
    carry_out(&mut to, &from, &actions);
    assert_eq!(to, from);
}

#[test]
fn as_many_entries_go_as_are_counted() {
    let from = source();
    for unreadable in [0, 1] {
        let before = target();
        let (s, d) = (scan(&from, &[]), scan(&before, &[]));
        let plan = prepare(&s, &d, 2, &PathSet::new(), unreadable, false).unwrap();
        let mut to = target();
        carry_out(&mut to, &from, &plan.actions);
        let same_type = |a: &Node, b: &Node| a.kind.same_type(&b.kind);
        let gone = before
            .iter()
            .filter(|(place, node)| !to.get(*place).is_some_and(|now| same_type(now, node)))
            .count();
        assert_eq!(plan.removed, gone as u64);
    }
}

#[test]
fn held_back_deletions_keep_extraneous_entries() {
    let from = source();
    let mut to = target();
    let plan =
        prepare(&scan(&from, &[]), &scan(&to, &[]), 2, &PathSet::new(), 1, false).unwrap();
    carry_out(&mut to, &from, &plan.actions);
    for (place, node) in &from {
        assert_eq!(&to[place], node);
    }
    assert_eq!(to["stale"], file("s", 1));
    assert_eq!(to["a/old/deep/f"], file("f", 1));
    assert!(!to.contains_key("was_dir/inside"));
    let (actions, _) = diff(&scan(&from, &[]), &scan(&target(), &[]), 2);
    assert_eq!(drop_deletes(actions), plan.actions);
}

#[test]
fn plans_name_no_place_in_a_separate_source() {
    let (source_root, dest_root) = (path("/disk/src"), path("/disk/src2"));
    assert!(check_disjoint(&source_root, &dest_root).is_ok());
    let (actions, _) = diff(&scan(&source(), &[]), &scan(&target(), &[]), 2);
    for action in &actions {
        let rel = match action {
            Action::RemoveConflict(rel)
            | Action::CreateDir(rel)
            | Action::DeleteFile(rel)
            | Action::DeleteDir(rel) => rel,
            Action::Copy { rel, .. }
            | Action::CreateSymlink { rel, .. }
            | Action::SetDirMeta { rel, .. }
            | Action::SetFileMeta { rel, .. } => rel,
        };
        let place = dest_root.join(rel);
        assert!(!place.starts_with(&source_root));
        assert!(!source_root.starts_with(&place));
        let temp = temp_path(42, 7, &place);
        assert!(temp.starts_with(&dest_root));
        assert!(!temp.starts_with(&source_root));
    }
}
