//! Texts that are read, written and shown.

use crate::path::{
    join_concatenates_parts, name_of, parent_drops_last_part, parts, PartView, UnixPath,
};
use crate::progress::{
    spinner_frame, spinner_follows_time, worker_line, worker_lines, SPINNER_FRAMES,
};
use crate::filter::FilterError;
use crate::report::{
    confirm_question, held_back_warning, incomplete_scan_error, kept_warning, skipped_warning,
};
use crate::resolve::Overlap;
use crate::session::Ending;
use crate::temp::{
    cut_is_tight, display_name, holder, shown_name, temp_name, temp_names_are_plain,
    temp_names_are_unique, temp_names_fit, temp_path, truncate_utf8, NAME_MAX,
};
use crate::text::{
    append_number, begins, consents, digit, digits, is_space, is_yes, line_end, line_says,
    lines_say, lowered, solid_state, to_chars, trim_back, trim_front, trimmed,
};
use vstd::prelude::*;
use vstd::utf8::{encode_utf8, is_char_boundary, valid_utf8};

verus! {

// ---------------------------------------------------------------------------
// Numbers
// ---------------------------------------------------------------------------

/// The number that decimal digits stand for.
pub open spec fn value(text: Seq<char>) -> int
    decreases text.len(),
{
    if text.len() == 0 {
        0
    } else {
        10 * value(text.drop_last()) + (text.last() as int - 48)
    }
}

/// The digits of a number stand for it, and there is no zero in front.
pub proof fn digits_stand_for_their_number(n: nat)
    ensures
        value(digits(n)) == n,
        digits(n).len() > 0,
        n > 0 ==> digits(n)[0] != '0',
        n == 0 ==> digits(n).len() == 1,
    decreases n,
{
    if n < 10 {
        assert(digits(n).drop_last() =~= Seq::<char>::empty());
        assert(value(Seq::<char>::empty()) == 0);
        assert(digits(n).last() == digit(n as int));
    } else {
        assert(digits(n).last() == digit((n % 10) as int));
        digits_stand_for_their_number(n / 10);
        assert(digits(n).drop_last() =~= digits(n / 10));
    }
}

/// A number is written behind the text.
pub proof fn numbers_are_appended(text: &mut String, n: u64)
    requires
        call_ensures(append_number, (text, n), ()),
    ensures
        old(text)@.len() < final(text)@.len(),
        final(text)@.take(old(text)@.len() as int) == old(text)@,
        value(final(text)@.skip(old(text)@.len() as int)) == n,
{
    digits_stand_for_their_number(n as nat);
    assert(final(text)@.take(old(text)@.len() as int) =~= old(text)@);
    assert(final(text)@.skip(old(text)@.len() as int) =~= digits(n as nat));
}

// ---------------------------------------------------------------------------
// Answers
// ---------------------------------------------------------------------------

/// Blanks, tabs and line ends.
pub open spec fn is_blank(text: Seq<char>) -> bool {
    forall|k: int|
        0 <= k < text.len() ==> ((#[trigger] text[k]) == ' ' || text[k] == '\t' || text[k] == '\n'
            || text[k] == '\r')
}

/// The text starts and ends with a visible character.
pub open spec fn is_word(text: Seq<char>) -> bool {
    text.len() > 0 && '!' <= text[0] <= '~' && '!' <= text.last() <= '~'
}

proof fn lemma_trim_front(front: Seq<char>, text: Seq<char>)
    requires
        is_blank(front),
    ensures
        trim_front(front + text) == trim_front(text),
    decreases front.len(),
{
    if front.len() == 0 {
        assert(front + text =~= text);
    } else {
        let rest = front.skip(1);
        assert(forall|k: int| 0 <= k < rest.len() ==> rest[k] == front[k + 1]);
        assert((front + text)[0] == front[0]);
        assert((front + text).skip(1) =~= rest + text);
        lemma_trim_front(rest, text);
    }
}

proof fn lemma_trim_back(text: Seq<char>, back: Seq<char>)
    requires
        is_blank(back),
    ensures
        trim_back(text + back) == trim_back(text),
    decreases back.len(),
{
    if back.len() == 0 {
        assert(text + back =~= text);
    } else {
        let rest = back.drop_last();
        assert(forall|k: int| 0 <= k < rest.len() ==> rest[k] == back[k]);
        assert(back[back.len() - 1] == back.last());
        assert((text + back).last() == back.last());
        assert((text + back).drop_last() =~= text + rest);
        lemma_trim_back(text, rest);
    }
}

/// Trimming takes away what is blank around a word, and nothing of the word.
pub proof fn words_are_left_by_trimming(front: Seq<char>, word: Seq<char>, back: Seq<char>)
    requires
        is_blank(front),
        is_word(word),
        is_blank(back),
    ensures
        trimmed(front + word + back) == word,
        trimmed(front + back) == Seq::<char>::empty(),
{
    assert(front + word + back =~= front + (word + back));
    lemma_trim_front(front, word + back);
    assert((word + back)[0] == word[0]);
    lemma_trim_back(word, back);
    lemma_trim_front(front, back);
    lemma_trim_front(back, Seq::empty());
    assert(back + Seq::<char>::empty() =~= back);
}

/// All characters are white space, as Unicode has it.
pub open spec fn is_white(text: Seq<char>) -> bool {
    forall|k: int| 0 <= k < text.len() ==> white((#[trigger] text[k]) as int)
}

/// The code points with the property `White_Space`.
pub open spec fn white(c: int) -> bool {
    9 <= c <= 13 || c == 32 || c == 0x85 || c == 0xa0 || c == 0x1680 || 0x2000 <= c <= 0x200a || c
        == 0x2028 || c == 0x2029 || c == 0x202f || c == 0x205f || c == 0x3000
}

proof fn lemma_front_is_white(s: Seq<char>) -> (k: int)
    ensures
        0 <= k <= s.len(),
        is_white(s.take(k)),
        trim_front(s) == s.skip(k),
    decreases s.len(),
{
    if s.len() > 0 && is_space(s[0]) {
        let k = lemma_front_is_white(s.skip(1));
        assert forall|i: int| 0 <= i < k + 1 implies white((#[trigger] s.take(k + 1)[i]) as int) by {
            if i > 0 {
                assert(s.skip(1).take(k)[i - 1] == s[i]);
            }
        }
        assert(s.skip(1).skip(k) =~= s.skip(k + 1));
        k + 1
    } else {
        assert(s.skip(0) =~= s);
        0
    }
}

proof fn lemma_back_is_white(s: Seq<char>) -> (k: int)
    ensures
        0 <= k <= s.len(),
        is_white(s.skip(k)),
        trim_back(s) == s.take(k),
    decreases s.len(),
{
    if s.len() > 0 && is_space(s.last()) {
        let rest = s.drop_last();
        let k = lemma_back_is_white(rest);
        assert forall|i: int| 0 <= i < s.len() - k implies white((#[trigger] s.skip(k)[i]) as int) by {
            if i < rest.len() - k {
                assert(rest.skip(k)[i] == s[k + i]);
            }
        }
        assert(rest.take(k) =~= s.take(k));
        k
    } else {
        assert(s.take(s.len() as int) =~= s);
        s.len() as int
    }
}

/// Only one of five words is consent, with nothing but white space around it.
pub proof fn nothing_else_is_consent(line: &str, yes: bool)
    requires
        call_ensures(is_yes, (line,), yes),
        yes,
    ensures
        exists|a: int, b: int|
            0 <= a <= b <= line@.len() && is_white(#[trigger] line@.take(a)) && is_white(
                #[trigger] line@.skip(b),
            ) && (line@.subrange(a, b) == "y"@ || line@.subrange(a, b) == "Y"@ || line@.subrange(
                a,
                b,
            ) == "yes"@ || line@.subrange(a, b) == "Yes"@ || line@.subrange(a, b) == "YES"@),
{
    let s = line@;
    let a = lemma_front_is_white(s);
    let rest = s.skip(a);
    let k = lemma_back_is_white(rest);
    let b = a + k;
    assert(rest.skip(k) =~= s.skip(b));
    assert(rest.take(k) =~= s.subrange(a, b));
    assert(is_white(s.take(a)) && is_white(s.skip(b)));
}

/// Consent is given by `y` or `yes`, in small letters, in capitals or with one in
/// front, with nothing but blanks around it. Nothing else is consent, and neither
/// is an empty line.
pub proof fn consent_is_spelled_out(
    front: Seq<char>,
    word: Seq<char>,
    back: Seq<char>,
    line: &str,
    yes: bool,
)
    requires
        call_ensures(is_yes, (line,), yes),
        is_blank(front),
        is_blank(back),
        line@ == front + word + back,
        is_word(word) || word.len() == 0,
    ensures
        yes <==> word == "y"@ || word == "Y"@ || word == "yes"@ || word == "Yes"@ || word
            == "YES"@,
{
    reveal_strlit("y");
    reveal_strlit("Y");
    reveal_strlit("yes");
    reveal_strlit("Yes");
    reveal_strlit("YES");
    if word.len() == 0 {
        assert(line@ =~= front + back);
        let w = "y"@;
        assert(is_word(w));
        words_are_left_by_trimming(front, w, back);
        assert(trimmed(line@).len() == 0);
    } else {
        words_are_left_by_trimming(front, word, back);
        assert(trimmed(line@) == word);
    }
    assert(yes == consents(line@));
}

// ---------------------------------------------------------------------------
// The kind of a volume
// ---------------------------------------------------------------------------

/// A report is read line by line, and the first line that says something counts.
pub proof fn reports_are_read_by_lines(
    first: Seq<char>,
    rest: Seq<char>,
    report: &str,
    answer: Option<bool>,
)
    requires
        call_ensures(solid_state, (report,), answer),
        !first.contains('\n'),
        report@ == first || report@ == first.push('\n') + rest,
    ensures
        line_says(first) is Some ==> answer == line_says(first),
        line_says(first) is None && report@ == first ==> answer is None,
        line_says(first) is None && report@ == first.push('\n') + rest ==> answer == lines_say(
            rest,
            0,
        ),
{
    let all = report@;
    let n = first.len() as int;
    assert(all.take(n) =~= first);
    lemma_line_end(all, first, 0);
    assert(all.subrange(0, n) =~= first);
    if report@ == first.push('\n') + rest {
        lemma_later_lines(first.push('\n'), rest, 0);
    }
}

proof fn lemma_line_end(all: Seq<char>, first: Seq<char>, i: int)
    requires
        !first.contains('\n'),
        0 <= i <= first.len() <= all.len(),
        all.take(first.len() as int) == first,
        first.len() < all.len() ==> all[first.len() as int] == '\n',
    ensures
        line_end(all, i) == first.len(),
    decreases first.len() - i,
{
    if i < first.len() {
        assert(all.take(first.len() as int)[i] == all[i]);
        assert(first.contains(first[i]));
        lemma_line_end(all, first, i + 1);
    }
}

proof fn lemma_line_end_shift(front: Seq<char>, rest: Seq<char>, i: int)
    requires
        0 <= i <= rest.len(),
    ensures
        line_end(front + rest, front.len() + i) == front.len() + line_end(rest, i),
    decreases rest.len() - i,
{
    if i < rest.len() {
        assert((front + rest)[front.len() + i] == rest[i]);
        if rest[i] != '\n' {
            lemma_line_end_shift(front, rest, i + 1);
        }
    }
}

proof fn lemma_later_lines(front: Seq<char>, rest: Seq<char>, i: int)
    requires
        0 <= i <= rest.len(),
    ensures
        lines_say(front + rest, front.len() + i) == lines_say(rest, i),
    decreases rest.len() - i,
{
    let all = front + rest;
    let n = front.len() as int;
    lemma_line_end_shift(front, rest, i);
    crate::text::line_end_bounds(rest, i);
    let e = line_end(rest, i);
    assert(all.subrange(n + i, n + e) =~= rest.subrange(i, e));
    if e < rest.len() {
        lemma_later_lines(front, rest, e + 1);
    }
}

/// A line says that a volume is an SSD, or that it is none, behind `Solid State:`,
/// with yes or no in any capitals; what follows on that does not matter. A line
/// that starts otherwise says nothing.
pub proof fn lines_say_yes_or_no(
    front: Seq<char>,
    gap: Seq<char>,
    word: Seq<char>,
    back: Seq<char>,
)
    requires
        is_blank(front),
        is_blank(gap),
        is_word(word),
        is_blank(back),
    ensures
        ({
            let said = line_says(front + "Solid State:"@ + gap + word + back);
            let is = |a: char, b: char, i: int| word[i] == a || word[i] == b;
            let yes = word.len() >= 3 && is('y', 'Y', 0) && is('e', 'E', 1) && is('s', 'S', 2);
            let no = word.len() >= 2 && is('n', 'N', 0) && is('o', 'O', 1);
            &&& said == Some(true) <==> yes
            &&& said == Some(false) <==> no
        }),
        word.len() < 12 || word.take(12) != "Solid State:"@ ==> line_says(front + word + back)
            is None,
{
    reveal_strlit("Solid State:");
    reveal_strlit("yes");
    reveal_strlit("no");
    let label = "Solid State:"@;
    let body = label + gap + word;
    assert(front + label + gap + word + back =~= front + body + back);
    assert(body[0] == label[0]);
    assert(body.last() == word.last());
    words_are_left_by_trimming(front, body, back);
    assert(body.take(12) =~= label);
    let none = Seq::<char>::empty();
    assert(body.skip(12) =~= gap + word + none);
    words_are_left_by_trimming(gap, word, none);
    let value = lowered(word);
    lemma_begins(value, "yes"@);
    lemma_begins(value, "no"@);
    assert forall|i: int| 0 <= i < word.len() implies value[i] == crate::text::lower(
        #[trigger] word[i],
    ) by {
        lemma_lower(word[i]);
    }
    if word.len() > 0 {
        lemma_lower(word[0]);
        assert(value[0] == crate::text::lower(word[0]));
    }
    if word.len() > 1 {
        lemma_lower(word[1]);
        assert(value[1] == crate::text::lower(word[1]));
    }
    if word.len() > 2 {
        lemma_lower(word[2]);
        assert(value[2] == crate::text::lower(word[2]));
    }
    let (y, n) = ("yes"@, "no"@);
    assert(y[0] == 'y' && y[1] == 'e' && y[2] == 's' && y.len() == 3);
    assert(n[0] == 'n' && n[1] == 'o' && n.len() == 2);
    words_are_left_by_trimming(front, word, back);
}

proof fn lemma_lower(c: char)
    ensures
        crate::text::lower(c) == 'y' <==> c == 'y' || c == 'Y',
        crate::text::lower(c) == 'e' <==> c == 'e' || c == 'E',
        crate::text::lower(c) == 's' <==> c == 's' || c == 'S',
        crate::text::lower(c) == 'n' <==> c == 'n' || c == 'N',
        crate::text::lower(c) == 'o' <==> c == 'o' || c == 'O',
{
}

proof fn lemma_begins(text: Seq<char>, word: Seq<char>)
    ensures
        begins(text, word) <==> word.len() <= text.len() && forall|i: int|
            0 <= i < word.len() ==> text[i] == #[trigger] word[i],
{
    if begins(text, word) {
        assert forall|i: int| 0 <= i < word.len() implies text[i] == #[trigger] word[i] by {
            assert(text.take(word.len() as int)[i] == text[i]);
        }
    }
    if word.len() <= text.len() && (forall|i: int|
        0 <= i < word.len() ==> text[i] == #[trigger] word[i]) {
        assert(text.take(word.len() as int) =~= word);
    }
}

// ---------------------------------------------------------------------------
// Temporary names
// ---------------------------------------------------------------------------

/// A temporary file stands next to the file that it is for, under a name that is
/// short enough and starts with a dot; and no two copies share one.
pub proof fn temporary_files_stand_next_to_theirs(
    pid: u32,
    seq: u64,
    dst: &UnixPath,
    path: UnixPath,
    other_pid: u32,
    other_seq: u64,
    other: &UnixPath,
    other_path: UnixPath,
)
    requires
        call_ensures(temp_path, (pid, seq, dst), path),
        call_ensures(temp_path, (other_pid, other_seq, other), other_path),
        name_of(dst@) is Some,
        name_of(other@) is Some,
    ensures
        parts(path@).len() == parts(dst@).len(),
        parts(path@).drop_last() == parts(dst@).drop_last(),
        parts(path@).last() matches PartView::Normal(name) && 0 < name.len() <= 255 && name[0]
            == 0x2e,
        parts(path@) == parts(other_path@) ==> pid == other_pid && seq == other_seq,
{
    lemma_temp_parts(pid, seq, dst@);
    lemma_temp_parts(other_pid, other_seq, other@);
    let name = temp_name(pid as nat, seq as nat, shown_name(dst@));
    let other_name = temp_name(other_pid as nat, other_seq as nat, shown_name(other@));
    temp_names_fit(pid, seq, dst@);
    crate::temp::temp_names_start_with_a_dot(pid as nat, seq as nat, shown_name(dst@));
    assert(parts(path@).drop_last() =~= parts(dst@).drop_last());
    if parts(path@) == parts(other_path@) {
        assert(parts(path@).last() == PartView::Normal(name));
        assert(parts(other_path@).last() == PartView::Normal(other_name));
        temp_names_are_unique(
            pid as nat,
            seq as nat,
            shown_name(dst@),
            other_pid as nat,
            other_seq as nat,
            shown_name(other@),
        );
    }
}

proof fn lemma_temp_parts(pid: u32, seq: u64, dst: Seq<u8>)
    requires
        name_of(dst) is Some,
    ensures
        parts(
            crate::path::join_of(
                holder(dst),
                temp_name(pid as nat, seq as nat, shown_name(dst)),
            ),
        ) == parts(dst).drop_last().push(
            PartView::Normal(temp_name(pid as nat, seq as nat, shown_name(dst))),
        ),
{
    let name = temp_name(pid as nat, seq as nat, shown_name(dst));
    let up = holder(dst);
    parent_drops_last_part(dst);
    temp_names_are_plain(pid as nat, seq as nat, dst);
    join_concatenates_parts(up, name);
    crate::path::empty_path_has_no_parts();
    if up.len() == 0 {
        assert(up =~= Seq::<u8>::empty());
    }
    assert(crate::path::behind_cur_dir(parts(name)) =~= seq![PartView::Normal(name)]);
    assert(parts(crate::path::join_of(up, name)) =~= parts(dst).drop_last().push(
        PartView::Normal(name),
    ));
}

/// The temporary name ends with the file's own name, if that is text and there is
/// room for it.
pub proof fn temporary_names_tell_whose_they_are(pid: u32, seq: u64, dst: &UnixPath, path: UnixPath)
    requires
        call_ensures(temp_path, (pid, seq, dst), path),
        name_of(dst@) is Some,
        valid_utf8(name_of(dst@)->0),
        name_of(dst@)->0.len() <= 200,
    ensures
        name_of(path@) matches Some(name) && name_of(dst@)->0.len() <= name.len() && name.skip(
            name.len() - name_of(dst@)->0.len(),
        ) == name_of(dst@)->0,
{
    let own = name_of(dst@)->0;
    let name = temp_name(pid as nat, seq as nat, shown_name(dst@));
    lemma_temp_parts(pid, seq, dst@);
    crate::temp::short_names_are_whole(pid, seq, own);
    assert(name.skip(name.len() - own.len()) =~= own);
}

/// A file name may have two hundred and fifty-five bytes.
pub proof fn names_have_room()
    ensures
        NAME_MAX == 255,
{
}

/// A text is cut to at most so many bytes, at the end of a character, and no more
/// of it is cut off than that takes; one that is short enough stays whole.
pub proof fn texts_are_cut_between_characters(s: &str, max: usize, out: &str)
    requires
        call_ensures(truncate_utf8, (s, max), out),
    ensures
        ({
            let whole = encode_utf8(s@);
            let kept = encode_utf8(out@);
            &&& kept.len() <= max
            &&& kept.len() <= whole.len() && kept == whole.take(kept.len() as int)
            &&& is_char_boundary(whole, kept.len() as int)
            &&& forall|m: int|
                kept.len() < m <= max && m <= whole.len() ==> !is_char_boundary(whole, m)
            &&& whole.len() <= max ==> kept == whole
        }),
{
    let whole = encode_utf8(s@);
    let kept = encode_utf8(out@);
    cut_is_tight(s@, max as nat);
    if whole.len() <= max {
        assert(whole.take(whole.len() as int) =~= whole);
    }
    assert(kept.len() <= whole.len()) by {
        if whole.len() > max {
            assert(kept.len() <= max);
        }
    }
}

/// The name that is shown is the file name, if that is text.
pub proof fn names_are_shown_if_they_are_text(dst: &UnixPath, name: Option<String>)
    requires
        call_ensures(display_name, (dst,), name),
    ensures
        name matches Some(text) ==> name_of(dst@) == Some(encode_utf8(text@)),
        name is None ==> name_of(dst@) is None || !valid_utf8(name_of(dst@)->0),
{
}

// ---------------------------------------------------------------------------
// Messages
// ---------------------------------------------------------------------------

/// A run ends with an error exactly if something went wrong that it knows of: a root
/// cannot be used, a safety net took effect, actions failed, or directories stayed
/// unread. A step that failed has its own error.
pub proof fn endings_are_errors_if_something_is_wrong(
    ending: &Ending,
    source: &str,
    target: &str,
    error: Option<String>,
    notice: Option<String>,
)
    requires
        call_ensures(Ending::error, (ending, source, target), error),
        call_ensures(Ending::notice, (ending,), notice),
    ensures
        error is Some <==> match *ending {
            Ending::SourceNotDirectory => true,
            Ending::TargetNotDirectory => true,
            Ending::StepFailed => false,
            Ending::SourceEmpty { .. } => true,
            Ending::TooManyDeletes { .. } => true,
            Ending::DryRun { unreadable } => unreadable > 0,
            Ending::InSync { unreadable } => unreadable > 0,
            Ending::Declined => false,
            Ending::ActionsFailed { .. } => true,
            Ending::Incomplete { .. } => true,
            Ending::Mirrored => false,
        },
        notice is Some <==> ending is DryRun || ending is InSync || ending is Declined
            || ending is Mirrored,
        ending is SourceNotDirectory ==> ends_with(error->0@, source@),
        ending is TargetNotDirectory ==> ends_with(error->0@, target@),
        *ending matches Ending::TooManyDeletes { count, .. } ==> starts_with_number(
            error->0@,
            count as nat,
        ),
        *ending matches Ending::ActionsFailed { failed } ==> starts_with_number(
            error->0@,
            failed as nat,
        ),
        *ending matches Ending::Incomplete { unreadable } ==> starts_with_number(
            error->0@,
            unreadable as nat,
        ),
{
    match *ending {
        Ending::SourceNotDirectory => {
            lemma_ends("Source is not a directory: "@, source@);
        },
        Ending::TargetNotDirectory => {
            lemma_ends("Target is not a directory: "@, target@);
        },
        Ending::TooManyDeletes { count, max } => {
            let rest = " deletions exceed the limit --max-delete "@ + digits(max as nat)
                + ". Aborting, nothing changed."@;
            assert(error->0@ =~= digits(count as nat) + rest);
            lemma_starts(count as nat, rest);
        },
        Ending::ActionsFailed { failed } => {
            lemma_starts(failed as nat, " actions failed."@);
        },
        Ending::Incomplete { unreadable } => {
            lemma_starts(
                unreadable as nat,
                " directory/directories could not be read - the mirror is incomplete."@,
            );
        },
        _ => {},
    }
}

/// The text ends with these characters.
pub open spec fn ends_with(text: Seq<char>, end: Seq<char>) -> bool {
    end.len() <= text.len() && text.skip(text.len() - end.len()) == end
}

/// The text starts with the number, in decimal.
pub open spec fn starts_with_number(text: Seq<char>, n: nat) -> bool {
    exists|k: int| 0 < k <= text.len() && value(#[trigger] text.take(k)) == n
}

proof fn lemma_ends(front: Seq<char>, end: Seq<char>)
    ensures
        ends_with(front + end, end),
{
    assert((front + end).skip(front.len() as int) =~= end);
}

proof fn lemma_starts(n: nat, rest: Seq<char>)
    ensures
        starts_with_number(digits(n) + rest, n),
{
    digits_stand_for_their_number(n);
    let k = digits(n).len() as int;
    assert((digits(n) + rest).take(k) =~= digits(n));
}

/// The question tells how many entries go, and warnings end with what they are
/// about.
pub proof fn questions_tell_how_much_goes(removed: u64, question: String, dir: &str, kept: String)
    requires
        call_ensures(confirm_question, (removed,), question),
        call_ensures(kept_warning, (dir,), kept),
    ensures
        starts_with_number(question@, removed as nat),
        ends_with(kept@, dir@),
{
    lemma_starts(
        removed as nat,
        " files/folders will be DELETED in the target. Continue? [y/N] "@,
    );
    lemma_ends("Warning: directory not deleted, as it holds excluded entries: "@, dir@);
}

// ---------------------------------------------------------------------------
// Progress
// ---------------------------------------------------------------------------

/// The spinner shows its ten frames one after the other, each for an eighth of a
/// second, and then starts again.
pub proof fn frames_change_with_time(k: nat, rest: nat, frame: &'static str)
    requires
        rest < 125,
        k + 10 <= usize::MAX,
        call_ensures(spinner_frame, ((k * 125 + rest) as u128,), frame),
    ensures
        frame@ == SPINNER_FRAMES@[(k % 10) as int]@,
{
    spinner_follows_time(k, rest);
}

/// There is a line for each worker, and one at least; workers have lines of their own
/// as long as there are enough.
pub proof fn workers_have_lines(jobs: usize, lines: usize, worker: usize, line: usize)
    requires
        call_ensures(worker_lines, (jobs,), lines),
        call_ensures(worker_line, (worker, lines), line),
    ensures
        lines >= 1,
        jobs >= 1 ==> lines == jobs,
        jobs == 0 ==> lines == 1,
        line < lines,
        worker < lines ==> line == worker,
{
}

/// The text holds these characters somewhere.
pub open spec fn mentions(text: Seq<char>, part: Seq<char>) -> bool {
    exists|i: int|
        0 <= i && i + part.len() <= text.len() && #[trigger] text.subrange(i, i + part.len())
            == part
}

proof fn lemma_mentions(front: Seq<char>, part: Seq<char>, back: Seq<char>)
    ensures
        mentions(front + part + back, part),
{
    let i = front.len() as int;
    assert((front + part + back).subrange(i, i + part.len()) =~= part);
}

/// Warnings mention the figures that they are about.
pub proof fn warnings_mention_their_figures(
    count: u64,
    unreadable: usize,
    held: String,
    skipped: u64,
    failed: u64,
    skip: String,
    incomplete: String,
)
    requires
        call_ensures(held_back_warning, (count, unreadable), held),
        call_ensures(skipped_warning, (skipped, failed), skip),
        call_ensures(incomplete_scan_error, (unreadable,), incomplete),
    ensures
        mentions(held@, digits(count as nat)) && mentions(held@, digits(unreadable as nat)),
        mentions(skip@, digits(skipped as nat)) && mentions(skip@, digits(failed as nat)),
        starts_with_number(incomplete@, unreadable as nat),
{
    let a = "Warning: "@;
    let b = " planned deletion(s) are skipped because "@;
    let c = " directory/directories are not readable (--ignore-errors forces them)."@;
    let x = digits(count as nat);
    let y = digits(unreadable as nat);
    lemma_mentions(a, x, b + y + c);
    assert(held@ =~= a + x + (b + y + c));
    lemma_mentions(a + x + b, y, c);
    let d = " deletion(s) skipped because "@;
    let e = " action(s) failed (--ignore-errors forces them)."@;
    let u = digits(skipped as nat);
    let v = digits(failed as nat);
    lemma_mentions(a, u, d + v + e);
    assert(skip@ =~= a + u + (d + v + e));
    lemma_mentions(a + u + d, v, e);
    lemma_starts(
        unreadable as nat,
        " directory/directories could not be read - the mirror is incomplete."@,
    );
}

/// The error for roots that overlap mentions the source, and the target where the two
/// are different; one for a pattern mentions the pattern and the reason.
pub proof fn errors_mention_their_subjects(
    overlap: &Overlap,
    source: &str,
    target: &str,
    text: String,
    refusal: &FilterError,
    message: String,
)
    requires
        call_ensures(Overlap::error, (overlap, source, target), text),
        call_ensures(FilterError::message, (refusal,), message),
    ensures
        mentions(text@, source@),
        !(overlap is Identical) ==> mentions(text@, target@),
        *refusal matches FilterError::Pattern { pattern, reason } ==> mentions(
            message@,
            crate::filter::quoted(pattern@),
        ) && ends_with(message@, reason@),
        *refusal matches FilterError::TooDeep { pattern } ==> mentions(
            message@,
            crate::filter::quoted(pattern@),
        ),
        *refusal matches FilterError::Compile { reason } ==> message@ == reason@,
{
    let none = Seq::<char>::empty();
    match *overlap {
        Overlap::Identical => {
            lemma_mentions("Source and target are identical: "@, source@, none);
            assert(text@ =~= "Source and target are identical: "@ + source@ + none);
        },
        Overlap::TargetInsideSource => {
            let a = "Target lies inside the source: "@;
            let b = " contains "@;
            lemma_mentions(a, source@, b + target@);
            assert(text@ =~= a + source@ + (b + target@));
            lemma_mentions(a + source@ + b, target@, none);
            assert(text@ =~= a + source@ + b + target@ + none);
        },
        Overlap::SourceInsideTarget => {
            let a = "Source lies inside the target: "@;
            let b = " contains "@;
            let c = " (would delete the source!)"@;
            lemma_mentions(a, target@, b + source@ + c);
            assert(text@ =~= a + target@ + (b + source@ + c));
            lemma_mentions(a + target@ + b, source@, c);
        },
    }
    let front = "Invalid --exclude pattern "@;
    match *refusal {
        FilterError::Pattern { pattern, reason } => {
            let q = crate::filter::quoted(pattern@);
            lemma_mentions(front, q, ": "@ + reason@);
            assert(message@ =~= front + q + (": "@ + reason@));
            lemma_ends(front + q + ": "@, reason@);
        },
        FilterError::TooDeep { pattern } => {
            let q = crate::filter::quoted(pattern@);
            lemma_mentions(front, q, ": braces are nested too deeply"@);
        },
        _ => {},
    }
}

/// The characters of a text are those that it is made of, and a path that is made
/// from a text has its bytes.
pub proof fn texts_are_taken_as_they_are(text: &str, chars: Vec<char>, path: UnixPath)
    requires
        call_ensures(to_chars, (text,), chars),
        call_ensures(UnixPath::from_text, (text,), path),
    ensures
        chars@ == text@,
        path@ == encode_utf8(text@),
{
}

} // verus!
