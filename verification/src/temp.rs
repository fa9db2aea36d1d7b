//! Names of temporary files.
//!
//! A file is written under a temporary name next to its place and then
//! renamed. PID and a process-wide counter make the name unique; the file's own
//! name behind them is pure cosmetics.

use crate::path::{
    bytes_make_a_name, is_rooted, join_of, name_of, names_hold_no_separator, parent_of, parts,
    PartView, UnixPath, SEP,
};
use crate::text::{append_number, digits, digits_are_digits, digits_tell_numbers_apart};
use vstd::prelude::*;
use vstd::utf8::{encode_utf8, is_char_boundary, valid_utf8};

verus! {

/// The longest file name that the system accepts, in bytes.
pub const NAME_MAX: usize = 255;

/// The last character boundary at or before `max`.
pub open spec fn cut_point(bytes: Seq<u8>, max: int) -> int
    decreases max,
{
    if max <= 0 {
        0
    } else if is_char_boundary(bytes, max) {
        max
    } else {
        cut_point(bytes, max - 1)
    }
}

/// At most `max` bytes of the text, without cutting UTF-8 sequences.
pub open spec fn cut(bytes: Seq<u8>, max: nat) -> Seq<u8> {
    if bytes.len() <= max {
        bytes
    } else {
        bytes.take(cut_point(bytes, max as int))
    }
}

/// A text is cut at a character boundary, at most at `max`, and nothing more
/// is cut off than that takes.
pub proof fn cut_is_tight(text: Seq<char>, max: nat)
    ensures
        cut(encode_utf8(text), max).len() <= max,
        ({
            let bytes = encode_utf8(text);
            let n = cut(bytes, max).len() as int;
            &&& cut(bytes, max) == bytes.take(n)
            &&& is_char_boundary(bytes, n)
            &&& forall|m: int| n < m <= max && m <= bytes.len() ==> !is_char_boundary(bytes, m)
        }),
{
    let bytes = encode_utf8(text);
    vstd::utf8::encode_utf8_valid_utf8(text);
    vstd::utf8::is_char_boundary_start_end_of_seq(bytes);
    if bytes.len() <= max {
        assert(bytes.take(bytes.len() as int) =~= bytes);
    } else {
        lemma_cut_point(bytes, max as int);
    }
}

proof fn lemma_cut_point(bytes: Seq<u8>, max: int)
    requires
        valid_utf8(bytes),
        0 <= max <= bytes.len(),
    ensures
        0 <= cut_point(bytes, max) <= max,
        is_char_boundary(bytes, cut_point(bytes, max)),
        forall|m: int| cut_point(bytes, max) < m <= max ==> !is_char_boundary(bytes, m),
    decreases max,
{
    vstd::utf8::is_char_boundary_start_end_of_seq(bytes);
    if max > 0 && !is_char_boundary(bytes, max) {
        lemma_cut_point(bytes, max - 1);
    }
}

/// Truncates `s` to at most `max_bytes` bytes without cutting UTF-8 sequences.
pub fn truncate_utf8(s: &str, max_bytes: usize) -> (out: &str)
    ensures
        encode_utf8(out@) == cut(encode_utf8(s@), max_bytes as nat),
{
    let ghost bytes = encode_utf8(s@);
    let raw = s.as_bytes();
    assert(raw@ == bytes);
    if raw.len() <= max_bytes {
        return s;
    }
    proof {
        vstd::utf8::encode_utf8_valid_utf8(s@);
        vstd::utf8::is_char_boundary_start_end_of_seq(bytes);
    }
    let mut end = max_bytes;
    while !s.is_char_boundary(end)
        invariant
            bytes == encode_utf8(s@),
            valid_utf8(bytes),
            is_char_boundary(bytes, 0),
            end <= max_bytes < bytes.len(),
            cut_point(bytes, max_bytes as int) == cut_point(bytes, end as int),
        decreases end,
    {
        end -= 1;
    }
    let (front, _) = s.split_at(end);
    assert(encode_utf8(front@) =~= bytes.take(end as int));
    front
}

/// The part of a temporary name that makes it unique.
pub open spec fn temp_prefix(pid: nat, seq: nat) -> Seq<char> {
    ".dino-copy.tmp."@ + digits(pid) + "."@ + digits(seq) + "."@
}

/// The name of a file as far as it can be shown: `f` for one that is not
/// UTF-8, and where there is no name.
pub open spec fn shown_name(dst: Seq<u8>) -> Seq<u8> {
    match name_of(dst) {
        Some(name) => if valid_utf8(name) {
            name
        } else {
            encode_utf8("f"@)
        },
        None => encode_utf8("f"@),
    }
}

/// How many bytes are left for the file's own name.
pub open spec fn left_for_name(prefix: Seq<u8>) -> nat {
    if prefix.len() >= NAME_MAX {
        0
    } else {
        (NAME_MAX - prefix.len()) as nat
    }
}

/// The temporary name for a file of this name.
pub open spec fn temp_name(pid: nat, seq: nat, name: Seq<u8>) -> Seq<u8> {
    let prefix = encode_utf8(temp_prefix(pid, seq));
    prefix + cut(name, left_for_name(prefix))
}

/// The directory that holds the path; `.` where it has none.
pub open spec fn holder(dst: Seq<u8>) -> Seq<u8> {
    match parent_of(dst) {
        Some(parent) => parent,
        None => encode_utf8("."@),
    }
}

/// `std::str::from_utf8`: the text that the bytes encode, or nothing if they
/// are not UTF-8.
#[verifier::external_body]
fn read_utf8(bytes: &Vec<u8>) -> (text: Option<String>)
    ensures
        match text {
            Some(t) => encode_utf8(t@) == bytes@,
            None => !valid_utf8(bytes@),
        },
{
    std::str::from_utf8(bytes).ok().map(|t| t.to_string())
}

/// The name of `dst` for the display, if it is UTF-8.
pub fn display_name(dst: &UnixPath) -> (name: Option<String>)
    ensures
        match name {
            Some(t) => name_of(dst@) == Some(encode_utf8(t@)),
            None => name_of(dst@) matches Some(bytes) ==> !valid_utf8(bytes),
        },
{
    match dst.file_name() {
        Some(bytes) => read_utf8(&bytes),
        None => None,
    }
}

/// The temporary path for copying to `dst`: next to it, under a name made of
/// the PID, a counter and as much of the file's own name as fits.
pub fn temp_path(pid: u32, seq: u64, dst: &UnixPath) -> (path: UnixPath)
    ensures
        path@ == join_of(holder(dst@), temp_name(pid as nat, seq as nat, shown_name(dst@))),
{
    let parent = match dst.parent() {
        Some(parent) => parent,
        None => UnixPath::from_text("."),
    };
    let mut prefix = String::from_str(".dino-copy.tmp.");
    append_number(&mut prefix, pid as u64);
    prefix.append(".");
    append_number(&mut prefix, seq);
    prefix.append(".");
    assert(prefix@ =~= temp_prefix(pid as nat, seq as nat));
    let mut bytes = prefix.as_str().as_bytes_vec();
    assert(bytes@ == encode_utf8(temp_prefix(pid as nat, seq as nat)));
    let name = match display_name(dst) {
        Some(name) => name,
        None => String::from_str("f"),
    };
    proof {
        vstd::utf8::encode_utf8_valid_utf8(name@);
    }
    assert(encode_utf8(name@) == shown_name(dst@));
    let room: usize = if bytes.len() >= NAME_MAX {
        0
    } else {
        NAME_MAX - bytes.len()
    };
    let mut tail = truncate_utf8(name.as_str(), room).as_bytes_vec();
    bytes.append(&mut tail);
    parent.join(&UnixPath::new(bytes))
}

/// The characters of a prefix are ASCII, and each takes one byte.
proof fn lemma_prefix_bytes(pid: nat, seq: nat)
    ensures
        encode_utf8(temp_prefix(pid, seq)).len() == temp_prefix(pid, seq).len(),
        forall|i: int|
            0 <= i < temp_prefix(pid, seq).len() ==> #[trigger] encode_utf8(
                temp_prefix(pid, seq),
            )[i] == temp_prefix(pid, seq)[i] as u8,
{
    let p = temp_prefix(pid, seq);
    reveal_strlit(".dino-copy.tmp.");
    reveal_strlit(".");
    let a = ".dino-copy.tmp."@;
    let b = a + digits(pid);
    let c = b + "."@;
    let d = c + digits(seq);
    assert forall|i: int| 0 <= i < p.len() implies '\0' <= #[trigger] p[i] <= '\u{7f}' by {
        if i < a.len() {
            assert(p[i] == a[i]);
        } else if i < b.len() {
            digits_are_digits(pid, i - a.len());
            assert(p[i] == digits(pid)[i - a.len()]);
        } else if i < c.len() {
            assert(p[i] == "."@[i - b.len()]);
        } else if i < d.len() {
            digits_are_digits(seq, i - c.len());
            assert(p[i] == digits(seq)[i - c.len()]);
        } else {
            assert(p[i] == "."@[i - d.len()]);
        }
    }
    vstd::utf8::is_ascii_chars_encode_utf8(p);
}

/// Two texts of the same bytes that both have digits from `at` on, and a dot
/// behind them, have the same digits there.
proof fn lemma_same_digits(t1: Seq<u8>, t2: Seq<u8>, at: int, m: nat, n: nat)
    requires
        t1 == t2,
        at >= 0,
        at + digits(m).len() < t1.len(),
        at + digits(n).len() < t2.len(),
        forall|i: int|
            0 <= i < digits(m).len() ==> t1[at + i] == #[trigger] digits(m)[i] as u8,
        forall|i: int|
            0 <= i < digits(n).len() ==> t2[at + i] == #[trigger] digits(n)[i] as u8,
        t1[at + digits(m).len()] == '.' as u8,
        t2[at + digits(n).len()] == '.' as u8,
    ensures
        m == n,
{
    let a = digits(m);
    let b = digits(n);
    if a.len() < b.len() {
        digits_are_digits(n, a.len() as int);
        assert(t2[at + a.len()] == b[a.len() as int] as u8);
    }
    if b.len() < a.len() {
        digits_are_digits(m, b.len() as int);
        assert(t1[at + b.len()] == a[b.len() as int] as u8);
    }
    assert forall|i: int| 0 <= i < a.len() implies a[i] == b[i] by {
        digits_are_digits(m, i);
        digits_are_digits(n, i);
        assert(t1[at + i] == a[i] as u8);
        assert(t2[at + i] == b[i] as u8);
    }
    assert(a =~= b);
    digits_tell_numbers_apart(m, n);
}

/// Temporary names are unique: two copies of one process, or of two processes,
/// never use the same name, whatever the files are called.
pub proof fn temp_names_are_unique(
    pid1: nat,
    seq1: nat,
    name1: Seq<u8>,
    pid2: nat,
    seq2: nat,
    name2: Seq<u8>,
)
    requires
        temp_name(pid1, seq1, name1) == temp_name(pid2, seq2, name2),
    ensures
        pid1 == pid2,
        seq1 == seq2,
{
    reveal_strlit(".dino-copy.tmp.");
    reveal_strlit(".");
    let t1 = temp_name(pid1, seq1, name1);
    let t2 = temp_name(pid2, seq2, name2);
    lemma_prefix_layout(pid1, seq1, name1);
    lemma_prefix_layout(pid2, seq2, name2);
    lemma_same_digits(t1, t2, 15, pid1, pid2);
    lemma_same_digits(t1, t2, 16 + digits(pid1).len() as int, seq1, seq2);
}

/// Where the numbers and the dots behind them stand in a temporary name.
proof fn lemma_prefix_layout(pid: nat, seq: nat, name: Seq<u8>)
    ensures
        ({
            let t = temp_name(pid, seq, name);
            let a = digits(pid).len() as int;
            let b = digits(seq).len() as int;
            &&& t.len() >= 17 + a + b
            &&& forall|i: int| 0 <= i < a ==> t[15 + i] == #[trigger] digits(pid)[i] as u8
            &&& t[15 + a] == '.' as u8
            &&& forall|i: int| 0 <= i < b ==> t[16 + a + i] == #[trigger] digits(seq)[i] as u8
            &&& t[16 + a + b] == '.' as u8
        }),
{
    reveal_strlit(".dino-copy.tmp.");
    reveal_strlit(".");
    lemma_prefix_bytes(pid, seq);
    let p = temp_prefix(pid, seq);
    let e = encode_utf8(p);
    let t = temp_name(pid, seq, name);
    let a = digits(pid).len() as int;
    let b = digits(seq).len() as int;
    assert(p.len() == 17 + a + b);
    assert forall|i: int| 0 <= i < a implies t[15 + i] == #[trigger] digits(pid)[i] as u8 by {
        assert(p[15 + i] == digits(pid)[i]);
        assert(t[15 + i] == e[15 + i]);
    }
    assert(p[15 + a] == '.');
    assert(t[15 + a] == e[15 + a]);
    assert forall|i: int| 0 <= i < b implies t[16 + a + i] == #[trigger] digits(seq)[i] as u8 by {
        assert(p[16 + a + i] == digits(seq)[i]);
        assert(t[16 + a + i] == e[16 + a + i]);
    }
    assert(p[16 + a + b] == '.');
    assert(t[16 + a + b] == e[16 + a + b]);
}

/// A temporary name starts with a dot.
pub proof fn temp_names_start_with_a_dot(pid: nat, seq: nat, name: Seq<u8>)
    ensures
        temp_name(pid, seq, name).len() > 0,
        temp_name(pid, seq, name)[0] == 0x2e,
{
    reveal_strlit(".dino-copy.tmp.");
    reveal_strlit(".");
    lemma_prefix_bytes(pid, seq);
    let p = temp_prefix(pid, seq);
    assert(p[0] == ".dino-copy.tmp."@[0]);
    assert(encode_utf8(p)[0] == p[0] as u8);
    assert(temp_name(pid, seq, name)[0] == encode_utf8(p)[0]);
}

/// A one with `k` zeros.
spec fn tens(k: nat) -> nat
    decreases k,
{
    if k == 0 {
        1
    } else {
        10 * tens((k - 1) as nat)
    }
}

proof fn lemma_digits_bound(n: nat, k: nat)
    requires
        k >= 1,
        n < tens(k),
    ensures
        digits(n).len() <= k,
    decreases k,
{
    if n >= 10 {
        if k == 1 {
            reveal_with_fuel(tens, 2);
        } else {
            assert(n / 10 < tens((k - 1) as nat)) by (nonlinear_arith)
                requires
                    n < 10 * tens((k - 1) as nat),
            ;
            lemma_digits_bound(n / 10, (k - 1) as nat);
        }
    }
}

/// A temporary name is never longer than the system accepts, however long the
/// file's own name is.
pub proof fn temp_names_fit(pid: u32, seq: u64, dst: Seq<u8>)
    ensures
        temp_name(pid as nat, seq as nat, shown_name(dst)).len() <= NAME_MAX,
{
    reveal_with_fuel(tens, 21);
    assert(tens(10) == 10000000000);
    assert(tens(20) == 100000000000000000000);
    lemma_digits_bound(pid as nat, 10);
    lemma_digits_bound(seq as nat, 20);
    lemma_prefix_bytes(pid as nat, seq as nat);
    reveal_strlit(".dino-copy.tmp.");
    reveal_strlit(".");
    vstd::utf8::encode_utf8_valid_utf8("f"@);
    let prefix = encode_utf8(temp_prefix(pid as nat, seq as nat));
    let name = shown_name(dst);
    let left = left_for_name(prefix);
    if name.len() > left {
        lemma_cut_point(name, left as int);
    }
}

/// A name of up to two hundred bytes stands in its temporary name as it is.
pub proof fn short_names_are_whole(pid: u32, seq: u64, name: Seq<u8>)
    requires
        name.len() <= 200,
    ensures
        temp_name(pid as nat, seq as nat, name) == encode_utf8(
            temp_prefix(pid as nat, seq as nat),
        ) + name,
{
    reveal_with_fuel(tens, 21);
    assert(tens(10) == 10000000000);
    assert(tens(20) == 100000000000000000000);
    lemma_digits_bound(pid as nat, 10);
    lemma_digits_bound(seq as nat, 20);
    lemma_prefix_bytes(pid as nat, seq as nat);
    reveal_strlit(".dino-copy.tmp.");
    reveal_strlit(".");
}

/// A temporary name is one plain name: it leads into no other directory.
pub proof fn temp_names_are_plain(pid: nat, seq: nat, dst: Seq<u8>)
    ensures
        ({
            let name = temp_name(pid, seq, shown_name(dst));
            parts(name) == seq![PartView::Normal(name)] && !is_rooted(name)
        }),
{
    let name = temp_name(pid, seq, shown_name(dst));
    let own = shown_name(dst);
    let p = temp_prefix(pid, seq);
    let prefix = encode_utf8(p);
    let tail = cut(own, left_for_name(prefix));
    reveal_strlit(".dino-copy.tmp.");
    reveal_strlit(".");
    reveal_strlit("f");
    lemma_prefix_bytes(pid, seq);
    names_hold_no_separator(dst);
    vstd::utf8::is_ascii_chars_encode_utf8("f"@);
    assert forall|i: int| 0 <= i < own.len() implies own[i] != SEP by {
        if name_of(dst) matches Some(n) && valid_utf8(n) {
            assert(own == name_of(dst)->0);
            if own[i] == SEP {
                assert(own.contains(SEP));
            }
        } else {
            assert(own[i] == "f"@[i] as u8);
        }
    }
    assert forall|i: int| 0 <= i < prefix.len() implies prefix[i] != SEP by {
        lemma_prefix_has_no_separator(pid, seq, i);
    }
    lemma_cut_bounds(own, left_for_name(prefix));
    assert(!name.contains(SEP)) by {
        if name.contains(SEP) {
            let i = choose|i: int| 0 <= i < name.len() && name[i] == SEP;
            if i < prefix.len() {
                assert(name[i] == prefix[i]);
            } else {
                assert(name[i] == tail[i - prefix.len()]);
                assert(tail[i - prefix.len()] == own[i - prefix.len()]);
            }
        }
    }
    assert(name.len() >= prefix.len());
    assert(prefix.len() > 2);
    bytes_make_a_name(name);
}

proof fn lemma_cut_bounds(bytes: Seq<u8>, max: nat)
    ensures
        cut(bytes, max).len() <= bytes.len(),
        forall|i: int| 0 <= i < cut(bytes, max).len() ==> cut(bytes, max)[i] == bytes[i],
{
    if bytes.len() > max {
        lemma_cut_point_bounds(bytes, max as int);
    }
}

proof fn lemma_cut_point_bounds(bytes: Seq<u8>, max: int)
    requires
        0 <= max,
    ensures
        0 <= cut_point(bytes, max) <= max,
    decreases max,
{
    if max > 0 && !is_char_boundary(bytes, max) {
        lemma_cut_point_bounds(bytes, max - 1);
    }
}

proof fn lemma_prefix_has_no_separator(pid: nat, seq: nat, i: int)
    requires
        0 <= i < encode_utf8(temp_prefix(pid, seq)).len(),
    ensures
        encode_utf8(temp_prefix(pid, seq))[i] != SEP,
{
    reveal_strlit(".dino-copy.tmp.");
    reveal_strlit(".");
    lemma_prefix_bytes(pid, seq);
    let p = temp_prefix(pid, seq);
    let a = ".dino-copy.tmp."@;
    let b = a + digits(pid);
    let c = b + "."@;
    let d = c + digits(seq);
    assert(encode_utf8(p)[i] == p[i] as u8);
    if i < a.len() {
        assert(p[i] == a[i]);
    } else if i < b.len() {
        digits_are_digits(pid, i - a.len());
        assert(p[i] == digits(pid)[i - a.len()]);
    } else if i < c.len() {
        assert(p[i] == "."@[i - b.len()]);
    } else if i < d.len() {
        digits_are_digits(seq, i - c.len());
        assert(p[i] == digits(seq)[i - c.len()]);
    } else {
        assert(p[i] == "."@[i - d.len()]);
    }
}

} // verus!
