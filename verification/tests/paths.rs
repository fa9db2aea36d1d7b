use dino_copy::path::UnixPath;
use dino_copy::tree::{PathSet, Tree};
use dino_copy::entry::{EntryKind, FileEntry};

fn path(text: &str) -> UnixPath {
    UnixPath::from_text(text)
}

fn text(p: &UnixPath) -> String {
    String::from_utf8(p.as_bytes().clone()).unwrap()
}

fn entry(size: u64) -> FileEntry {
    FileEntry { kind: EntryKind::File, size, mtime: 0, mode: 0o644 }
}

/// All spellings below, and what the standard library makes of them, must agree.
const SPELLINGS: [&str; 26] = [
    "", "/", ".", "..", "a", "a/", "/a", "/a/", "a/b", "a//b", "a/./b", "./a", "./a/b", "a/..",
    "a/../b", "../a", "//a", "/./a", "a/b/", "a/b/.", "a/.", ".hidden", "a.b/c", "/..", "...", "a b",
];

#[test]
fn components_agree_with_the_standard_library() {
    for s in SPELLINGS {
        let p = path(s);
        let std = std::path::Path::new(s);
        assert_eq!(p.depth(), std.components().count(), "{s:?}");
        assert_eq!(
            p.parent().map(|q| text(&q)),
            std.parent().map(|q| q.to_str().unwrap().to_string()),
            "parent of {s:?}"
        );
        assert_eq!(
            p.file_name().map(|n| String::from_utf8(n).unwrap()),
            std.file_name().map(|n| n.to_str().unwrap().to_string()),
            "name of {s:?}"
        );
        assert_eq!(p.is_rooted(), std.is_absolute(), "{s:?}");
        assert_eq!(p.is_empty(), s.is_empty());
        assert_eq!(text(&p), s);
    }
}

#[test]
fn pairs_agree_with_the_standard_library() {
    for a in SPELLINGS {
        for b in SPELLINGS {
            let (p, q) = (path(a), path(b));
            let (sp, sq) = (std::path::Path::new(a), std::path::Path::new(b));
            assert_eq!(p == q, sp == sq, "{a:?} == {b:?}");
            assert_eq!(p.same(&q), sp == sq);
            assert_eq!(p.precedes(&q), sp < sq, "{a:?} < {b:?}");
            assert_eq!(text(&p.join(&q)), sp.join(sq).to_str().unwrap(), "{a:?} join {b:?}");
            assert_eq!(p.starts_with(&q), sp.starts_with(sq), "{a:?} starts with {b:?}");
            assert_eq!(
                p.strip_prefix(&q).map(|r| text(&r)),
                sp.strip_prefix(sq).ok().map(|r| r.to_str().unwrap().to_string()),
                "{a:?} strip {b:?}"
            );
        }
    }
}

#[test]
fn paths_are_bytes() {
    let p = UnixPath::new(vec![b'a', b'/', 0xff, 0xfe]);
    assert_eq!(p.file_name(), Some(vec![0xff, 0xfe]));
    assert_eq!(p.clone().as_bytes(), &vec![b'a', b'/', 0xff, 0xfe]);
    assert_eq!(path("ü").as_bytes(), &vec![0xc3, 0xbc]);
}

#[test]
fn trees_keep_the_last_entry_in_ascending_order() {
    let tree = Tree::from_entries(vec![
        (path("b"), entry(1)),
        (path("a/x"), entry(2)),
        (path("a"), entry(3)),
        (path("./b"), entry(4)),
        (path("b/"), entry(5)),
    ]);
    let list: Vec<(String, u64)> =
        (0..tree.len()).map(|i| (text(tree.path_at(i)), tree.entry_at(i).size)).collect();
    let expected: Vec<(String, u64)> = vec![
        ("./b".to_string(), 4),
        ("a".to_string(), 3),
        ("a/x".to_string(), 2),
        ("b".to_string(), 5),
    ];
    assert_eq!(list, expected);
    assert_eq!(tree.get(&path("a//x/.")).unwrap().size, 2);
    assert!(tree.get(&path("x")).is_none());
    assert!(!tree.is_empty());
    assert!(Tree::new().is_empty());
}

#[test]
fn sets_forget_what_they_gained() {
    let mut set = PathSet::new();
    set.insert(path("m"));
    set.insert(path("a"));
    set.insert(path("z"));
    set.insert(path("a/"));
    assert_eq!(set.len(), 3);
    assert_eq!(text(set.path_at(0)), "a");
    set.remove(&path("m//"));
    set.remove(&path("unknown"));
    assert_eq!(set.len(), 2);
    assert!(!set.contains(&path("m")));
    assert!(set.contains(&path("z")));
    set.remove(&path("a"));
    set.remove(&path("z"));
    assert!(set.is_empty());
}
