use dino_copy::filter::{assemble, sort_patterns, Filter, FilterError, MAX_BRACE_DEPTH};
use dino_copy::path::UnixPath;

fn filter(patterns: &[&str]) -> Filter {
    Filter::new(&patterns.iter().map(|p| p.to_string()).collect::<Vec<_>>()).unwrap()
}

fn path(text: &str) -> UnixPath {
    UnixPath::from_text(text)
}

#[test]
fn empty_filter_excludes_nothing() {
    let f = Filter::new(&[]).unwrap();
    assert!(f.is_empty());
    assert!(!f.excludes(&path("a.txt")));
}

#[test]
fn name_pattern_matches_at_every_depth() {
    let f = filter(&["*.tmp"]);
    assert!(f.excludes(&path("x.tmp")));
    assert!(f.excludes(&path("sub/deep/x.tmp")));
    assert!(!f.excludes(&path("x.txt")));
}

#[test]
fn name_pattern_matches_directories_too() {
    // Pruning the subtree is the walker's job; all that matters here is
    // that the directory entry itself counts as a match.
    let f = filter(&["cache"]);
    assert!(f.excludes(&path("cache")));
    assert!(f.excludes(&path("sub/cache")));
}

#[test]
fn path_pattern_matches_the_full_relative_path_only() {
    let f = filter(&["sub/b.txt"]);
    assert!(f.excludes(&path("sub/b.txt")));
    assert!(!f.excludes(&path("other/b.txt")));
    assert!(!f.excludes(&path("b.txt")));
}

#[test]
fn star_in_a_path_pattern_does_not_cross_separators() {
    let f = filter(&["sub/*.txt"]);
    assert!(f.excludes(&path("sub/direct.txt")));
    assert!(!f.excludes(&path("sub/deep/inside.txt")));
}

#[test]
fn patterns_of_both_kinds_combine() {
    let f = filter(&[".DS_Store", "sub/b.txt"]);
    assert!(f.excludes(&path("deep/.DS_Store")));
    assert!(f.excludes(&path("sub/b.txt")));
    assert!(!f.excludes(&path("a.txt")));
}

#[test]
fn invalid_pattern_is_rejected_with_the_pattern_in_the_message() {
    let err = Filter::new(&["[".to_string()]).unwrap_err().message();
    assert!(err.contains("Invalid --exclude pattern"), "{err}");
    assert!(err.contains('['), "{err}");
}

#[test]
fn the_first_invalid_pattern_is_reported_quoted() {
    let patterns = vec!["*.ok".to_string(), "a\"[".to_string(), "{".to_string()];
    let err = Filter::new(&patterns).unwrap_err();
    match &err {
        FilterError::Pattern { pattern, .. } => assert_eq!(pattern, "a\"["),
        _ => panic!("{err:?}"),
    }
    assert_eq!(
        err.message(),
        "Invalid --exclude pattern \"a\\\"[\": error parsing glob 'a\"[': unclosed character class; missing ']'"
    );
}

#[test]
fn names_are_matched_as_bytes() {
    let f = filter(&["*.tmp"]);
    assert!(f.excludes(&UnixPath::new(vec![0xff, b'.', b't', b'm', b'p'])));
    assert!(!f.excludes(&UnixPath::new(vec![0xff, b'.', b't', b'm'])));
    // No name at the end: nothing for a name pattern to match.
    assert!(!filter(&["*"]).excludes(&path("a/..")));
}

#[test]
fn default_filter_is_empty_and_copies_keep_their_patterns() {
    assert!(Filter::default().is_empty());
    let f = filter(&["*.tmp", "a/b"]);
    let copy = f.clone();
    assert!(!copy.is_empty());
    assert!(copy.excludes(&path("q.tmp")));
    assert!(copy.excludes(&path("a/b")));
    assert!(!copy.excludes(&path("a/c")));
}

#[test]
fn a_set_that_cannot_be_compiled_is_reported() {
    let set = globset::GlobSet::empty();
    let err = assemble(Some(Err("names".to_string())), Some(Err("paths".to_string())));
    assert_eq!(err.unwrap_err().message(), "names");
    let err = assemble(Some(Ok(set.clone())), Some(Err("paths".to_string())));
    assert_eq!(err.unwrap_err().message(), "paths");
    let f = assemble(Some(Ok(set)), None).unwrap();
    assert!(!f.is_empty());
    assert!(!f.excludes(&path("a")));
    assert!(assemble(None, None).unwrap().is_empty());
}

#[test]
fn braces_must_not_be_nested_too_deeply() {
    let nested = |n: usize| "{".repeat(n) + &"}".repeat(n);
    assert!(filter(&["{a,{b,c}}.txt"]).excludes(&path("sub/b.txt")));
    assert!(sort_patterns(&[nested(MAX_BRACE_DEPTH)]).is_ok());
    let deep = nested(MAX_BRACE_DEPTH + 1);
    let err = Filter::new(&["ok".to_string(), deep.clone(), "[".to_string()]).unwrap_err();
    match &err {
        FilterError::TooDeep { pattern } => assert_eq!(pattern, &deep),
        _ => panic!("{err:?}"),
    }
    assert_eq!(
        err.message(),
        format!("Invalid --exclude pattern \"{deep}\": braces are nested too deeply")
    );
    assert!(matches!(
        Filter::new(&[nested(100_000)]).unwrap_err(),
        FilterError::TooDeep { .. }
    ));
    // Side by side they are no deeper than one of them.
    assert!(sort_patterns(&["{a,b}".repeat(MAX_BRACE_DEPTH + 1)]).is_ok());
    let flat = "{b}".repeat(MAX_BRACE_DEPTH + 1);
    for front in ["[a]", "[]{]", "[!]{]", "[^]}]", "\\{", "[\\]"] {
        assert!(sort_patterns(&[front.to_string() + &flat]).is_ok(), "{front}");
    }
    // Braces in a class or behind a backslash do not count.
    assert!(sort_patterns(&["[{]".repeat(MAX_BRACE_DEPTH + 1)]).is_ok());
    assert!(sort_patterns(&["\\{".repeat(MAX_BRACE_DEPTH + 1)]).is_ok());
    // A closing brace in a class closes nothing.
    let hidden = "{[}]".repeat(MAX_BRACE_DEPTH + 1);
    assert!(matches!(sort_patterns(&[hidden]), Err(FilterError::TooDeep { .. })));
}

#[test]
fn patterns_are_sorted_by_what_they_are_matched_against() {
    let sort = |list: &[&str]| {
        let list: Vec<String> = list.iter().map(|p| p.to_string()).collect();
        let (names, paths) = sort_patterns(&list).unwrap();
        (names.is_some(), paths.is_some())
    };
    assert_eq!(sort(&[]), (false, false));
    assert_eq!(sort(&["*.tmp"]), (true, false));
    assert_eq!(sort(&["a/b"]), (false, true));
    assert_eq!(sort(&["a/b", "*.tmp"]), (true, true));
}

#[test]
fn more_patterns_exclude_more() {
    let few = filter(&["*.tmp"]);
    let more = filter(&["*.tmp", "a/*"]);
    for rel in ["x.tmp", "a/x.tmp", "a/b", "b"] {
        assert!(!few.excludes(&path(rel)) || more.excludes(&path(rel)), "{rel}");
    }
    assert!(more.excludes(&path("a/b")));
    assert!(!few.excludes(&path("a/b")));
}
