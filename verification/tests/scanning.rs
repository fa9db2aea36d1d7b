use dino_copy::entry::{EntryKind, FileEntry};
use dino_copy::filter::Filter;
use dino_copy::path::UnixPath;
use dino_copy::scan::{
    collect, keep_child, read_entry, read_link_entry, EntryRead, LinkRead, MetaRead, RawMeta, Scan,
    WalkLog,
};

fn path(text: &str) -> UnixPath {
    UnixPath::from_text(text)
}

fn text(p: &UnixPath) -> String {
    String::from_utf8(p.as_bytes().clone()).unwrap()
}

fn raw(is_symlink: bool, is_dir: bool, is_file: bool) -> RawMeta {
    RawMeta { is_symlink, is_dir, is_file, len: 12, mtime: 99, mode: 0o104755 }
}

fn entry_from(read: EntryRead) -> FileEntry {
    match read {
        EntryRead::Entry(e) => e,
        other => panic!("{other:?}"),
    }
}

#[test]
fn metadata_becomes_an_entry() {
    let file = entry_from(read_entry(MetaRead::Found(raw(false, false, true))));
    assert_eq!(
        file,
        FileEntry { kind: EntryKind::File, size: 12, mtime: 99, mode: 0o4755 }
    );
    let dir = entry_from(read_entry(MetaRead::Found(raw(false, true, false))));
    assert_eq!(dir, FileEntry { kind: EntryKind::Dir, size: 0, mtime: 99, mode: 0o4755 });
    let meta = raw(true, false, false);
    assert!(matches!(read_entry(MetaRead::Found(meta)), EntryRead::NeedsLink));
    let link = entry_from(read_link_entry(meta, LinkRead::Target(path("to"))));
    assert_eq!(
        link,
        FileEntry {
            kind: EntryKind::Symlink { target: path("to") },
            size: 0,
            mtime: 99,
            mode: 0o4755
        }
    );
}

#[test]
fn special_vanished_and_unreadable_entries() {
    assert!(matches!(
        read_entry(MetaRead::Found(raw(false, false, false))),
        EntryRead::Special
    ));
    assert!(matches!(read_entry(MetaRead::NotFound), EntryRead::Vanished));
    assert!(matches!(read_entry(MetaRead::Error), EntryRead::Failed));
    let meta = raw(true, false, false);
    assert!(matches!(read_link_entry(meta, LinkRead::NotFound), EntryRead::Vanished));
    assert!(matches!(read_link_entry(meta, LinkRead::Error), EntryRead::Failed));
}

#[test]
fn the_root_is_not_recorded() {
    let mut log = WalkLog::new();
    let root = path("/r");
    log.visit(&root, path("/r/"), None);
    log.visit(&root, path("/r/a"), None);
    log.visit(&root, path("/r/b"), Some("denied".to_string()));
    log.visit(&root, path("/elsewhere"), Some("odd".to_string()));
    let names: Vec<String> = log.paths.iter().map(text).collect();
    assert_eq!(names, vec!["/r/a", "/r/b", "/elsewhere"]);
    let unread: Vec<(String, String)> =
        log.unreadable.iter().map(|(p, e)| (text(p), e.clone())).collect();
    assert_eq!(
        unread,
        vec![
            ("b".to_string(), "denied".to_string()),
            ("/elsewhere".to_string(), "odd".to_string())
        ]
    );
}

#[test]
fn an_unreadable_root_is_reported() {
    let mut log = WalkLog::new();
    log.visit(&path("/r"), path("/r"), Some("denied".to_string()));
    assert!(log.paths.is_empty());
    assert_eq!(text(&log.unreadable[0].0), "");
}

#[test]
fn excluded_children_drop_out() {
    let filter = Filter::new(&["*.tmp".to_string(), "sub/x".to_string()]).unwrap();
    let root = path("/r");
    assert!(!keep_child(&root, &path("/r"), &path("a.tmp"), &filter));
    assert!(keep_child(&root, &path("/r"), &path("x"), &filter));
    assert!(!keep_child(&root, &path("/r/sub"), &path("x"), &filter));
    assert!(keep_child(&root, &path("/other"), &path("a.tmp"), &filter));
}

#[test]
fn a_tree_is_collected_below_the_root() {
    let list = vec![
        (path("/r/b"), read_entry(MetaRead::Found(raw(false, false, true)))),
        (path("/r/gone"), EntryRead::Vanished),
        (path("/r/pipe"), EntryRead::Special),
        (path("/r/a"), read_entry(MetaRead::Found(raw(false, true, false)))),
    ];
    let tree = collect(&path("/r"), list).unwrap();
    assert_eq!(tree.len(), 2);
    assert_eq!(text(tree.path_at(0)), "a");
    assert_eq!(text(tree.path_at(1)), "b");
}

#[test]
fn one_lost_path_gives_up_the_tree() {
    let list = vec![
        (path("/r/b"), read_entry(MetaRead::Found(raw(false, false, true)))),
        (path("/r/a"), EntryRead::Failed),
    ];
    assert!(collect(&path("/r"), list).is_none());
    assert!(collect(&path("/r"), vec![(path("/q/a"), EntryRead::Vanished)]).is_none());
    assert!(collect(&path("/r"), Vec::new()).unwrap().is_empty());
}

#[test]
fn a_missing_target_is_empty() {
    let scan = Scan::empty();
    assert!(scan.entries.is_empty());
    assert!(scan.unreadable.is_empty());
}
