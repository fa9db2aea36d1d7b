use dino_copy::digest::{contents_differ, ContentHash};
use dino_copy::path::UnixPath;
use dino_copy::temp::{display_name, temp_path, truncate_utf8, NAME_MAX};
use dino_copy::text::{append_number, is_yes, solid_state, to_chars};

fn path(text: &str) -> UnixPath {
    UnixPath::from_text(text)
}

fn text(p: &UnixPath) -> String {
    String::from_utf8(p.as_bytes().clone()).unwrap()
}

fn number(n: u64) -> String {
    let mut out = String::from("<");
    append_number(&mut out, n);
    out
}

#[test]
fn numbers_are_decimal() {
    assert_eq!(number(0), "<0");
    assert_eq!(number(9), "<9");
    assert_eq!(number(10), "<10");
    assert_eq!(number(1_234_567_890), "<1234567890");
    assert_eq!(number(u64::MAX), "<18446744073709551615");
}

#[test]
fn consent_is_given_in_five_ways() {
    for line in ["y", "Y", "yes", "Yes", "YES", "y\n", "  yes \r\n", "\u{3000}Y\u{a0}\n"] {
        assert!(is_yes(line), "{line:?}");
    }
    for line in ["", "\n", "n", "yEs", "yes!", "y y", "ja", "no", "\u{200b}y"] {
        assert!(!is_yes(line), "{line:?}");
    }
}

#[test]
fn white_space_is_what_the_standard_library_trims() {
    for code in 0..0x3100u32 {
        if let Some(c) = char::from_u32(code) {
            let line = format!("{c}y{c}");
            assert_eq!(is_yes(&line), line.trim() == "y", "{code:x}");
        }
    }
}

#[test]
fn a_disk_report_says_whether_it_is_solid_state() {
    let report = "   Device Node: /dev/disk2\n   Solid State:               Yes\n   Other: x\n";
    assert_eq!(solid_state(report), Some(true));
    assert_eq!(solid_state("\tSolid State: NO\r\n"), Some(false));
    assert_eq!(solid_state("Solid State: maybe\nSolid State: no"), Some(false));
    assert_eq!(solid_state("Solid State: Info not available"), None);
    assert_eq!(solid_state("not Solid State: yes"), None);
    assert_eq!(solid_state("Solid State"), None);
    assert_eq!(solid_state(""), None);
    assert_eq!(solid_state("Solid State:yes"), Some(true));
}

#[test]
fn characters_come_in_order() {
    assert_eq!(to_chars("aü⠋"), vec!['a', 'ü', '⠋']);
}

#[test]
fn truncation_never_cuts_a_character() {
    assert_eq!(truncate_utf8("abc", 3), "abc");
    assert_eq!(truncate_utf8("abc", 2), "ab");
    assert_eq!(truncate_utf8("aüb", 2), "a");
    assert_eq!(truncate_utf8("aüb", 3), "aü");
    assert_eq!(truncate_utf8("⠋", 2), "");
    assert_eq!(truncate_utf8("", 0), "");
}

#[test]
fn temporary_files_lie_next_to_their_place() {
    assert_eq!(text(&temp_path(42, 7, &path("/t/sub/a.txt"))), "/t/sub/.dino-copy.tmp.42.7.a.txt");
    assert_eq!(text(&temp_path(1, 0, &path("a"))), ".dino-copy.tmp.1.0.a");
    assert_eq!(text(&temp_path(1, 0, &path("/"))), "./.dino-copy.tmp.1.0.f");
    let odd = UnixPath::new(vec![b'/', 0xff]);
    assert_eq!(text(&temp_path(1, 0, &odd)), "/.dino-copy.tmp.1.0.f");
}

#[test]
fn temporary_names_fit_and_differ() {
    let long = "x".repeat(250);
    let a = temp_path(u32::MAX, u64::MAX, &path(&long));
    assert_eq!(a.as_bytes().len(), NAME_MAX);
    let multi = "ü".repeat(120);
    let b = temp_path(u32::MAX, u64::MAX, &path(&multi));
    assert_eq!(b.as_bytes().len(), NAME_MAX);
    assert!(text(&b).ends_with('ü'));
    let c = temp_path(u32::MAX, 100, &path(&multi));
    assert_eq!(c.as_bytes().len(), NAME_MAX - 1);
    assert!(temp_path(1, 12, &path("3.x")) != temp_path(1, 1, &path("2.3.x")));
}

#[test]
fn names_are_displayed_if_they_are_text() {
    assert_eq!(display_name(&path("/a/ü.txt")), Some("ü.txt".to_string()));
    assert_eq!(display_name(&UnixPath::new(vec![b'a', b'/', 0x80])), None);
    assert_eq!(display_name(&path("a/..")), None);
}

fn hex(bytes: &[u8]) -> String {
    bytes.iter().map(|b| format!("{b:02x}")).collect()
}

#[test]
fn contents_are_hashed_with_blake3() {
    let empty = ContentHash::new().finish();
    assert_eq!(
        hex(&empty.bytes),
        "af1349b9f5f9a1a6a0404dea36dcc9499bcb25c9adc112b7cc9a93cae41f3262"
    );
    let mut hash = ContentHash::new();
    hash.update(b"a");
    hash.update(b"");
    hash.update(b"bc");
    let pieces = hash.finish();
    assert_eq!(
        hex(&pieces.bytes),
        "6437b3ac38465133ffb63b75273a8db548c558465d79db03fd359c6cd5bd9d85"
    );
    assert_eq!(hex(&pieces.bytes), hex(blake3::hash(b"abc").as_bytes()));
    assert!(!pieces.same(&empty));
    assert!(pieces.same(&hash.finish()));
}

#[test]
fn unreadable_files_count_as_different() {
    let a = ContentHash::new().finish();
    let mut other = ContentHash::new();
    other.update(b"b");
    let b = other.finish();
    assert!(!contents_differ(Some(a), Some(a)));
    assert!(contents_differ(Some(a), Some(b)));
    assert!(contents_differ(None, Some(a)));
    assert!(contents_differ(Some(a), None));
    assert!(contents_differ(None, None));
}

#[test]
fn file_hashes_differ_detected() {
    let hash = |pieces: &[&[u8]]| {
        let mut hash = ContentHash::new();
        for piece in pieces {
            hash.update(piece);
        }
        hash.finish()
    };
    let (a, b) = (hash(&[b"aaaa"]), hash(&[b"bbbb"]));
    assert!(!a.same(&b));
    assert!(contents_differ(Some(a), Some(b)));
    // However the contents are cut into pieces.
    let cut = hash(&[b"a", b"", b"aa", b"a"]);
    assert!(a.same(&cut));
    assert!(!contents_differ(Some(a), Some(cut)));
}
