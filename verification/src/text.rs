//! Small pieces of text: decimal numbers, trimmed lines, and two answers that
//! are read from text.

use vstd::prelude::*;

verus! {

// ---------------------------------------------------------------------------
// Numbers
// ---------------------------------------------------------------------------

/// The decimal digit `d`.
pub open spec fn digit(d: int) -> char {
    if d == 0 {
        '0'
    } else if d == 1 {
        '1'
    } else if d == 2 {
        '2'
    } else if d == 3 {
        '3'
    } else if d == 4 {
        '4'
    } else if d == 5 {
        '5'
    } else if d == 6 {
        '6'
    } else if d == 7 {
        '7'
    } else if d == 8 {
        '8'
    } else {
        '9'
    }
}

/// A number in decimal, without leading zeros.
pub open spec fn digits(n: nat) -> Seq<char>
    decreases n,
{
    if n < 10 {
        seq![digit(n as int)]
    } else {
        digits(n / 10).push(digit((n % 10) as int))
    }
}

/// Different numbers are written differently.
pub proof fn digits_tell_numbers_apart(a: nat, b: nat)
    requires
        digits(a) == digits(b),
    ensures
        a == b,
    decreases a,
{
    lemma_digits_len(a);
    lemma_digits_len(b);
    if a < 10 {
        assert(digits(a)[0] == digit(a as int));
        assert(digits(b)[0] == digit(b as int));
    } else {
        assert(digits(a).last() == digit((a % 10) as int));
        assert(digits(b).last() == digit((b % 10) as int));
        assert(digits(a).drop_last() =~= digits(a / 10));
        assert(digits(b).drop_last() =~= digits(b / 10));
        digits_tell_numbers_apart(a / 10, b / 10);
    }
}

proof fn lemma_digits_len(n: nat)
    ensures
        digits(n).len() >= 1,
        digits(n).len() == 1 <==> n < 10,
    decreases n,
{
    if n >= 10 {
        lemma_digits_len(n / 10);
    }
}

/// Each character of a number is one of the ten digits.
pub proof fn digits_are_digits(n: nat, i: int)
    requires
        0 <= i < digits(n).len(),
    ensures
        '0' <= digits(n)[i] <= '9',
    decreases n,
{
    if n >= 10 && i < digits(n).len() - 1 {
        digits_are_digits(n / 10, i);
    }
}

fn digit_text(d: u64) -> (text: &'static str)
    requires
        d < 10,
    ensures
        text@ == seq![digit(d as int)],
{
    proof {
        reveal_strlit("0");
        reveal_strlit("1");
        reveal_strlit("2");
        reveal_strlit("3");
        reveal_strlit("4");
        reveal_strlit("5");
        reveal_strlit("6");
        reveal_strlit("7");
        reveal_strlit("8");
        reveal_strlit("9");
    }
    match d {
        0 => "0",
        1 => "1",
        2 => "2",
        3 => "3",
        4 => "4",
        5 => "5",
        6 => "6",
        7 => "7",
        8 => "8",
        _ => "9",
    }
}

/// Appends a number in decimal.
pub fn append_number(text: &mut String, n: u64)
    ensures
        final(text)@ == old(text)@ + digits(n as nat),
    decreases n,
{
    if n < 10 {
        text.append(digit_text(n));
    } else {
        append_number(text, n / 10);
        let ghost before = text@;
        text.append(digit_text(n % 10));
        assert(text@ =~= old(text)@ + digits(n as nat));
    }
}

// ---------------------------------------------------------------------------
// Lines
// ---------------------------------------------------------------------------

/// Characters with the Unicode property `White_Space`.
pub open spec fn is_space(c: char) -> bool {
    ||| '\u{9}' <= c <= '\u{d}'
    ||| c == '\u{20}'
    ||| c == '\u{85}'
    ||| c == '\u{a0}'
    ||| c == '\u{1680}'
    ||| '\u{2000}' <= c <= '\u{200a}'
    ||| c == '\u{2028}'
    ||| c == '\u{2029}'
    ||| c == '\u{202f}'
    ||| c == '\u{205f}'
    ||| c == '\u{3000}'
}

/// The text without white space at its front.
pub open spec fn trim_front(s: Seq<char>) -> Seq<char>
    decreases s.len(),
{
    if s.len() > 0 && is_space(s[0]) {
        trim_front(s.skip(1))
    } else {
        s
    }
}

/// The text without white space at its back.
pub open spec fn trim_back(s: Seq<char>) -> Seq<char>
    decreases s.len(),
{
    if s.len() > 0 && is_space(s.last()) {
        trim_back(s.drop_last())
    } else {
        s
    }
}

/// The text without white space around it.
pub open spec fn trimmed(s: Seq<char>) -> Seq<char> {
    trim_back(trim_front(s))
}

/// The text starts with these characters.
pub open spec fn begins(s: Seq<char>, word: Seq<char>) -> bool {
    word.len() <= s.len() && s.take(word.len() as int) == word
}

/// A letter from `A` to `Z` in lower case, any other character as it is.
pub open spec fn lower(c: char) -> char {
    if 'A' <= c <= 'Z' {
        (c as u32 + 32) as char
    } else {
        c
    }
}

/// The text with the letters from `A` to `Z` in lower case.
pub open spec fn lowered(s: Seq<char>) -> Seq<char> {
    s.map_values(|c: char| lower(c))
}

/// The characters of a text.
pub fn to_chars(text: &str) -> (chars: Vec<char>)
    ensures
        chars@ == text@,
{
    let mut out: Vec<char> = Vec::new();
    for c in it: text.chars()
        invariant
            out@ == it.seq().take(it.index() as int),
            it.seq() == text@,
    {
        out.push(c);
        assert(out@ =~= it.seq().take(it.index() as int + 1));
    }
    assert(text@.take(text@.len() as int) =~= text@);
    out
}

fn space(c: char) -> (yes: bool)
    ensures
        yes == is_space(c),
{
    ('\u{9}' <= c && c <= '\u{d}') || c == '\u{20}' || c == '\u{85}' || c == '\u{a0}' || c
        == '\u{1680}' || ('\u{2000}' <= c && c <= '\u{200a}') || c == '\u{2028}' || c
        == '\u{2029}' || c == '\u{202f}' || c == '\u{205f}' || c == '\u{3000}'
}

/// Narrows a range of characters to what is left without white space around
/// it.
fn trim_range(chars: &Vec<char>, from: usize, to: usize) -> (range: (usize, usize))
    requires
        from <= to <= chars@.len(),
    ensures
        from <= range.0 <= range.1 <= to,
        chars@.subrange(range.0 as int, range.1 as int) == trimmed(
            chars@.subrange(from as int, to as int),
        ),
{
    let ghost whole = chars@.subrange(from as int, to as int);
    let mut a = from;
    while a < to && space(chars[a])
        invariant
            from <= a <= to <= chars@.len(),
            trim_front(whole) == trim_front(chars@.subrange(a as int, to as int)),
        decreases to - a,
    {
        assert(chars@.subrange(a as int, to as int).skip(1) =~= chars@.subrange(
            a + 1,
            to as int,
        ));
        a += 1;
    }
    let ghost front = chars@.subrange(a as int, to as int);
    assert(trim_front(whole) == front);
    let mut b = to;
    while b > a && space(chars[b - 1])
        invariant
            a <= b <= to <= chars@.len(),
            trim_back(front) == trim_back(chars@.subrange(a as int, b as int)),
        decreases b - a,
    {
        assert(chars@.subrange(a as int, b as int).drop_last() =~= chars@.subrange(
            a as int,
            b - 1,
        ));
        b -= 1;
    }
    (a, b)
}

/// True when the range starts with the word.
fn range_begins(chars: &Vec<char>, from: usize, to: usize, word: &str) -> (yes: bool)
    requires
        from <= to <= chars@.len(),
    ensures
        yes == begins(chars@.subrange(from as int, to as int), word@),
{
    let letters = to_chars(word);
    let ghost range = chars@.subrange(from as int, to as int);
    if to - from < letters.len() {
        return false;
    }
    let mut i: usize = 0;
    while i < letters.len()
        invariant
            i <= letters@.len() <= to - from,
            from <= to <= chars@.len(),
            letters@ == word@,
            range == chars@.subrange(from as int, to as int),
            range.take(i as int) == word@.take(i as int),
        decreases letters@.len() - i,
    {
        assert(range[i as int] == chars@[from + i]);
        assert(range.take(i + 1) =~= range.take(i as int).push(range[i as int]));
        assert(word@.take(i + 1) =~= word@.take(i as int).push(word@[i as int]));
        if chars[from + i] != letters[i] {
            assert(range.take(word@.len() as int)[i as int] != word@[i as int]);
            return false;
        }
        i += 1;
    }
    assert(word@.take(word@.len() as int) =~= word@);
    true
}

/// True when the range is the word.
fn range_is(chars: &Vec<char>, from: usize, to: usize, word: &str) -> (yes: bool)
    requires
        from <= to <= chars@.len(),
    ensures
        yes == (chars@.subrange(from as int, to as int) == word@),
{
    let ghost range = chars@.subrange(from as int, to as int);
    assert(range.take(range.len() as int) =~= range);
    to - from == word.unicode_len() && range_begins(chars, from, to, word)
}

/// The answers to the confirmation question that count as consent.
pub open spec fn consents(line: Seq<char>) -> bool {
    let answer = trimmed(line);
    ||| answer == "y"@
    ||| answer == "Y"@
    ||| answer == "yes"@
    ||| answer == "Yes"@
    ||| answer == "YES"@
}

/// True when the line answers the confirmation question with yes.
pub fn is_yes(line: &str) -> (yes: bool)
    ensures
        yes == consents(line@),
{
    let chars = to_chars(line);
    let n = chars.len();
    assert(chars@.subrange(0, n as int) =~= chars@);
    let (a, b) = trim_range(&chars, 0, n);
    range_is(&chars, a, b, "y") || range_is(&chars, a, b, "Y") || range_is(&chars, a, b, "yes")
        || range_is(&chars, a, b, "Yes") || range_is(&chars, a, b, "YES")
}

// ---------------------------------------------------------------------------
// The kind of a volume
// ---------------------------------------------------------------------------

/// The next line break at or behind `i`, or the end.
pub open spec fn line_end(s: Seq<char>, i: int) -> int
    decreases s.len() - i,
{
    if i < 0 || i >= s.len() {
        s.len() as int
    } else if s[i] == '\n' {
        i
    } else {
        line_end(s, i + 1)
    }
}

pub proof fn line_end_bounds(s: Seq<char>, i: int)
    requires
        0 <= i <= s.len(),
    ensures
        i <= line_end(s, i) <= s.len(),
    decreases s.len() - i,
{
    if i < s.len() && s[i] != '\n' {
        line_end_bounds(s, i + 1);
    }
}

/// What one line says on whether the volume is an SSD.
pub open spec fn line_says(line: Seq<char>) -> Option<bool> {
    let t = trimmed(line);
    if !begins(t, "Solid State:"@) {
        None
    } else {
        let value = lowered(trimmed(t.skip("Solid State:"@.len() as int)));
        if begins(value, "yes"@) {
            Some(true)
        } else if begins(value, "no"@) {
            Some(false)
        } else {
            None
        }
    }
}

/// What the first line from `i` on that says anything says.
pub open spec fn lines_say(s: Seq<char>, i: int) -> Option<bool>
    decreases s.len() - i,
{
    if i < 0 || i > s.len() {
        None
    } else {
        proof {
            line_end_bounds(s, i);
        }
        let end = line_end(s, i);
        match line_says(s.subrange(i, end)) {
            Some(b) => Some(b),
            None => if end >= s.len() {
                None
            } else {
                lines_say(s, end + 1)
            },
        }
    }
}

/// True when the character, in lower case, is the letter.
fn lowers_to(c: char, letter: char) -> (yes: bool)
    ensures
        yes == (lower(c) == letter),
{
    let code: u32 = if 'A' <= c && c <= 'Z' {
        c as u32 + 32
    } else {
        c as u32
    };
    code == letter as u32
}

/// True when the range, in lower case, starts with the word.
fn range_begins_lowered(chars: &Vec<char>, from: usize, to: usize, word: &str) -> (yes: bool)
    requires
        from <= to <= chars@.len(),
    ensures
        yes == begins(lowered(chars@.subrange(from as int, to as int)), word@),
{
    let letters = to_chars(word);
    let ghost range = lowered(chars@.subrange(from as int, to as int));
    if to - from < letters.len() {
        return false;
    }
    let mut i: usize = 0;
    while i < letters.len()
        invariant
            i <= letters@.len() <= to - from,
            from <= to <= chars@.len(),
            letters@ == word@,
            range == lowered(chars@.subrange(from as int, to as int)),
            range.take(i as int) == word@.take(i as int),
        decreases letters@.len() - i,
    {
        let c = chars[from + i];
        assert(range[i as int] == lower(c));
        assert(range.take(i + 1) =~= range.take(i as int).push(range[i as int]));
        assert(word@.take(i + 1) =~= word@.take(i as int).push(word@[i as int]));
        if !lowers_to(c, letters[i]) {
            assert(range.take(word@.len() as int)[i as int] != word@[i as int]);
            return false;
        }
        i += 1;
    }
    assert(word@.take(word@.len() as int) =~= word@);
    true
}

/// Reads from a `diskutil info` report whether the volume is an SSD, from a
/// line that looks like `   Solid State:               Yes`. Nothing where the
/// report does not say.
pub fn solid_state(report: &str) -> (answer: Option<bool>)
    ensures
        answer == lines_say(report@, 0),
{
    let chars = to_chars(report);
    let n = chars.len();
    let mut start: usize = 0;
    proof {
        reveal_strlit("Solid State:");
    }
    loop
        invariant
            chars@ == report@,
            n == chars@.len(),
            start <= n,
            lines_say(report@, 0) == lines_say(report@, start as int),
            "Solid State:"@.len() == 12,
        decreases n - start,
    {
        let mut end = start;
        while end < n && chars[end] != '\n'
            invariant
                chars@ == report@,
                n == chars@.len(),
                start <= end <= n,
                line_end(report@, start as int) == line_end(report@, end as int),
            decreases n - end,
        {
            end += 1;
        }
        assert(line_end(report@, start as int) == end);
        let (a, b) = trim_range(&chars, start, end);
        let ghost t = trimmed(report@.subrange(start as int, end as int));
        assert(chars@.subrange(a as int, b as int) == t);
        if range_begins(&chars, a, b, "Solid State:") {
            let (c, d) = trim_range(&chars, a + 12, b);
            assert(chars@.subrange(a + 12, b as int) =~= t.skip(12));
            if range_begins_lowered(&chars, c, d, "yes") {
                return Some(true);
            }
            if range_begins_lowered(&chars, c, d, "no") {
                return Some(false);
            }
        }
        assert(line_says(report@.subrange(start as int, end as int)) is None);
        if end >= n {
            return None;
        }
        start = end + 1;
    }
}

} // verus!
