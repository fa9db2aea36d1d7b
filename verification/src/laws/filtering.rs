//! Which paths patterns exclude.

use crate::filter::{
    any_matches, assemble, brace_depth, for_names, for_paths, glob_matches, glob_refusal, globs,
    is_path_pattern, is_shallow, reading, texts, Filter, FilterError,
};
use crate::path::{join_of, name_of, starts_with, strip_of, UnixPath};
use crate::picks::filter_members;
use crate::scan::{filtered, keep_child};
use crate::sync::holds_excluded;
use vstd::prelude::*;

verus! {

/// The pattern excludes the path: one with a `/` by matching the whole path, one
/// without by matching the file name, wherever it stands. Neither `*` nor `?`
/// matches a `/`.
pub open spec fn excludes_by(pattern: Seq<char>, rel: Seq<u8>) -> bool {
    if exists|k: int| 0 <= k < pattern.len() && pattern[k] == '/' {
        glob_matches(pattern, true, rel)
    } else {
        name_of(rel) matches Some(name) && glob_matches(pattern, true, name)
    }
}

/// One of the patterns excludes the path.
pub open spec fn some_excludes(patterns: Seq<String>, rel: Seq<u8>) -> bool {
    exists|i: int| 0 <= i < patterns.len() && excludes_by((#[trigger] patterns[i])@, rel)
}

/// A glob of the list matches exactly if one of the patterns it was made from
/// does.
proof fn lemma_any(patterns: Seq<String>, p: spec_fn(Seq<char>) -> bool, path: Seq<u8>)
    ensures
        any_matches(globs(texts(patterns).filter(p)), path) <==> exists|i: int|
            0 <= i < patterns.len() && p((#[trigger] patterns[i])@) && glob_matches(
                patterns[i]@,
                true,
                path,
            ),
{
    let all = texts(patterns);
    let some = all.filter(p);
    let list = globs(some);
    filter_members(all, p);
    if any_matches(list, path) {
        let k = choose|k: int|
            0 <= k < list.len() && glob_matches((#[trigger] list[k]).0, list[k].1, path);
        assert(some.contains(some[k]));
        let i = choose|i: int| 0 <= i < all.len() && all[i] == some[k];
        assert(p(patterns[i]@) && glob_matches(patterns[i]@, true, path));
    }
    if exists|i: int|
        0 <= i < patterns.len() && p((#[trigger] patterns[i])@) && glob_matches(
            patterns[i]@,
            true,
            path,
        ) {
        let i = choose|i: int|
            0 <= i < patterns.len() && p((#[trigger] patterns[i])@) && glob_matches(
                patterns[i]@,
                true,
                path,
            );
        assert(all.contains(all[i]));
        assert(some.contains(all[i]));
        let k = choose|k: int| 0 <= k < some.len() && some[k] == all[i];
        assert(glob_matches(list[k].0, list[k].1, path));
    }
}

/// A filter excludes a path exactly if one of the patterns it was made from
/// does.
pub proof fn filters_exclude_by_their_patterns(
    patterns: &[String],
    filter: Filter,
    rel: &UnixPath,
    hit: bool,
)
    requires
        call_ensures(Filter::new, (patterns,), Ok(filter)),
        call_ensures(Filter::excludes, (&filter, rel), hit),
    ensures
        hit <==> some_excludes(patterns@, rel@),
{
    lemma_filtered(patterns, filter, rel@);
}

proof fn lemma_filtered(patterns: &[String], filter: Filter, rel: Seq<u8>)
    requires
        call_ensures(Filter::new, (patterns,), Ok(filter)),
    ensures
        filtered(filter, rel) <==> some_excludes(patterns@, rel),
{
    let all = patterns@;
    let f = |p: Seq<char>| !is_path_pattern(p);
    let g = |p: Seq<char>| is_path_pattern(p);
    lemma_any(all, g, rel);
    if let Some(name) = name_of(rel) {
        lemma_any(all, f, name);
    }
    assert forall|i: int| 0 <= i < all.len() implies ((exists|k: int|
        0 <= k < all[i]@.len() && all[i]@[k] == '/') <==> is_path_pattern(
        (#[trigger] all[i])@,
    )) by {
        let t = all[i]@;
        if is_path_pattern(t) {
            let k = choose|k: int| 0 <= k < t.len() && t[k] == '/';
            assert(t[k] == '/');
        }
    }
    if some_excludes(all, rel) {
        let i = choose|i: int| 0 <= i < all.len() && excludes_by((#[trigger] all[i])@, rel);
        assert(is_path_pattern(all[i]@) ==> g(all[i]@));
        assert(!is_path_pattern(all[i]@) ==> f(all[i]@));
    }
    if any_matches(filter.path_patterns(), rel) {
        let i = choose|i: int|
            0 <= i < all.len() && g((#[trigger] all[i])@) && glob_matches(all[i]@, true, rel);
        assert(excludes_by(all[i]@, rel));
    }
    if name_of(rel) matches Some(name) && any_matches(filter.name_patterns(), name) {
        let name = name_of(rel)->0;
        let i = choose|i: int|
            0 <= i < all.len() && f((#[trigger] all[i])@) && glob_matches(all[i]@, true, name);
        assert(excludes_by(all[i]@, rel));
    }
}

/// A child of a directory stays in the walk exactly if no pattern excludes its
/// path below the root. What does not lie below the root stays.
pub proof fn walks_leave_out_what_is_excluded(
    patterns: &[String],
    filter: Filter,
    root: &UnixPath,
    dir: &UnixPath,
    name: &UnixPath,
    keep: bool,
)
    requires
        call_ensures(Filter::new, (patterns,), Ok(filter)),
        call_ensures(keep_child, (root, dir, name, &filter), keep),
    ensures
        !starts_with(dir@, root@) ==> keep,
        strip_of(dir@, root@) matches Some(rel) ==> (keep <==> !some_excludes(
            patterns@,
            join_of(rel, name@),
        )),
{
    if let Some(rel) = strip_of(dir@, root@) {
        lemma_filtered(patterns, filter, join_of(rel, name@));
    }
}

/// Something excluded is held exactly if one of the paths, taken below the root,
/// is excluded.
pub proof fn excluded_paths_are_found(
    patterns: &[String],
    filter: Filter,
    root: &UnixPath,
    paths: &Vec<UnixPath>,
    held: bool,
)
    requires
        call_ensures(Filter::new, (patterns,), Ok(filter)),
        call_ensures(holds_excluded, (&filter, root, paths), held),
    ensures
        held <==> exists|i: int|
            0 <= i < paths@.len() && (strip_of((#[trigger] paths@[i])@, root@) matches Some(rel)
                && some_excludes(patterns@, rel)),
{
    assert(held == crate::sync::some_filtered(filter, root@, paths@));
    assert forall|rel: Seq<u8>| #[trigger] filtered(filter, rel) <==> some_excludes(
        patterns@,
        rel,
    ) by {
        lemma_filtered(patterns, filter, rel);
    }
    if held {
        let i = choose|i: int|
            0 <= i < paths@.len() && (strip_of((#[trigger] paths@[i])@, root@) matches Some(rel)
                && filtered(filter, rel));
        assert(some_excludes(patterns@, strip_of(paths@[i]@, root@)->0));
    }
    if exists|i: int|
        0 <= i < paths@.len() && (strip_of((#[trigger] paths@[i])@, root@) matches Some(rel)
            && some_excludes(patterns@, rel)) {
        let i = choose|i: int|
            0 <= i < paths@.len() && (strip_of((#[trigger] paths@[i])@, root@) matches Some(rel)
                && some_excludes(patterns@, rel));
        assert(filtered(filter, strip_of(paths@[i]@, root@)->0));
    }
}

/// A filter is empty exactly if it was made from no patterns; a copy of it
/// excludes the same, and without patterns nothing is excluded.
pub proof fn filters_without_patterns_are_empty(
    patterns: &[String],
    filter: Filter,
    empty: bool,
    copy: Filter,
    plain: Filter,
    rel: &UnixPath,
    hit: bool,
    again: bool,
    never: bool,
)
    requires
        call_ensures(Filter::new, (patterns,), Ok(filter)),
        call_ensures(Filter::is_empty, (&filter,), empty),
        call_ensures(Filter::clone, (&filter,), copy),
        call_ensures(Filter::default, (), plain),
        call_ensures(Filter::excludes, (&filter, rel), hit),
        call_ensures(Filter::excludes, (&copy, rel), again),
        call_ensures(Filter::excludes, (&plain, rel), never),
    ensures
        empty <==> patterns@.len() == 0,
        hit == again,
        !never,
{
    reveal(Seq::filter);
    assert(globs(for_names(Seq::empty())).len() == 0);
    assert(globs(for_paths(Seq::empty())).len() == 0);
}

/// A filter is made only if each pattern parses, with `/` to be matched literally,
/// and has its braces nested no more than two hundred and fifty deep. Otherwise
/// the first pattern that does not is reported, with the reason.
pub proof fn unusable_patterns_are_reported(
    patterns: &[String],
    made: Result<Filter, FilterError>,
)
    requires
        call_ensures(Filter::new, (patterns,), made),
    ensures
        made is Ok || (made matches Err(FilterError::Compile { .. })) ==> forall|i: int|
            0 <= i < patterns@.len() ==> glob_refusal((#[trigger] patterns@[i])@, true) is None
                && is_shallow(patterns@[i]@),
        made matches Err(FilterError::Pattern { pattern, reason }) ==> exists|i: int|
            0 <= i < patterns@.len() && (#[trigger] patterns@[i])@ == pattern@ && glob_refusal(
                pattern@,
                true,
            ) == Some(reason@) && accepted_before(patterns@, i),
        made matches Err(FilterError::TooDeep { pattern }) ==> exists|i: int|
            0 <= i < patterns@.len() && (#[trigger] patterns@[i])@ == pattern@ && !is_shallow(
                pattern@,
            ) && accepted_before(patterns@, i),
{
    let all = texts(patterns@);
    match made {
        Err(FilterError::Compile { .. }) => {
            lemma_usable(patterns@);
        },
        Err(error) => {
            let i = choose|i: int| #[trigger]
                crate::filter::first_refused(all, i) && match error {
                    FilterError::Pattern { pattern, reason } => {
                        &&& all[i] == pattern@
                        &&& is_shallow(pattern@)
                        &&& glob_refusal(pattern@, crate::filter::LITERAL_SEPARATOR) == Some(
                            reason@,
                        )
                    },
                    FilterError::TooDeep { pattern } => all[i] == pattern@ && !is_shallow(
                        pattern@,
                    ),
                    FilterError::Compile { .. } => false,
                };
            assert(patterns@[i]@ == all[i]);
            assert forall|k: int| 0 <= k < i implies glob_refusal(
                (#[trigger] patterns@[k])@,
                true,
            ) is None && is_shallow(patterns@[k]@) by {
                assert(all.take(i)[k] == patterns@[k]@);
            }
        },
        Ok(_) => {
            lemma_usable(patterns@);
        },
    }
}

/// All patterns before `i` can be used.
pub open spec fn accepted_before(patterns: Seq<String>, i: int) -> bool {
    forall|k: int|
        0 <= k < i ==> glob_refusal((#[trigger] patterns[k])@, true) is None && is_shallow(
            patterns[k]@,
        )
}

proof fn lemma_usable(patterns: Seq<String>)
    requires
        crate::filter::all_usable(texts(patterns)),
    ensures
        forall|i: int|
            0 <= i < patterns.len() ==> glob_refusal((#[trigger] patterns[i])@, true) is None
                && is_shallow(patterns[i]@),
{
    assert forall|i: int| 0 <= i < patterns.len() implies glob_refusal(
        (#[trigger] patterns[i])@,
        true,
    ) is None && is_shallow(patterns[i]@) by {
        assert(texts(patterns)[i] == patterns[i]@);
    }
}

/// If a set of patterns cannot be compiled there is no filter, and the reason is
/// handed on; otherwise there is one.
pub proof fn compile_errors_are_handed_on(
    names: Option<Result<globset::GlobSet, String>>,
    paths: Option<Result<globset::GlobSet, String>>,
    made: Result<Filter, FilterError>,
)
    requires
        call_ensures(assemble, (names, paths), made),
    ensures
        made is Ok <==> !(names matches Some(Err(_))) && !(paths matches Some(Err(_))),
        made matches Err(e) ==> (e matches FilterError::Compile { reason } && (names == Some(
            Err::<globset::GlobSet, String>(reason),
        ) || paths == Some(Err::<globset::GlobSet, String>(reason)))),
{
}

/// A pattern with at most two hundred and fifty opening braces is not nested too
/// deeply, and one that opens more than that at its start is.
pub proof fn few_braces_are_never_too_deep(pattern: Seq<char>)
    ensures
        pattern.filter(|c: char| c == '{').len() <= 250 ==> is_shallow(pattern),
        pattern.len() > 250 && (forall|k: int| 0 <= k <= 250 ==> pattern[k] == '{')
            ==> !is_shallow(pattern),
{
    let p = |c: char| c == '{';
    if pattern.filter(p).len() <= 250 {
        assert forall|i: int| 0 <= i <= pattern.len() implies brace_depth(
            #[trigger] pattern.take(i),
        ) <= 250 by {
            lemma_depth_is_counted(pattern.take(i));
            lemma_fewer_in_front(pattern, i);
        }
    }
    if pattern.len() > 250 && (forall|k: int| 0 <= k <= 250 ==> pattern[k] == '{') {
        lemma_opening(pattern, 251);
        assert(brace_depth(pattern.take(251)) == 251);
    }
}

proof fn lemma_depth_is_counted(text: Seq<char>)
    ensures
        brace_depth(text) <= text.filter(|c: char| c == '{').len(),
    decreases text.len(),
{
    reveal(Seq::filter);
    if text.len() > 0 {
        lemma_depth_is_counted(text.drop_last());
    }
}

proof fn lemma_fewer_in_front(text: Seq<char>, i: int)
    requires
        0 <= i <= text.len(),
    ensures
        text.take(i).filter(|c: char| c == '{').len() <= text.filter(|c: char| c == '{').len(),
    decreases text.len(),
{
    reveal(Seq::filter);
    if i < text.len() {
        let rest = text.drop_last();
        lemma_fewer_in_front(rest, i);
        assert(rest.take(i) =~= text.take(i));
    } else {
        assert(text.take(i) =~= text);
    }
}

proof fn lemma_opening(text: Seq<char>, n: int)
    requires
        0 <= n <= text.len(),
        forall|k: int| 0 <= k < n ==> text[k] == '{',
    ensures
        brace_depth(text.take(n)) == n,
        reading(text.take(n)) is Plain,
    decreases n,
{
    if n > 0 {
        lemma_opening(text, n - 1);
        assert(text.take(n).drop_last() =~= text.take(n - 1));
        assert(text.take(n).last() == '{');
    }
}

/// A group that was opened and closed again leaves the depth as it was, and so
/// does an escaped character.
pub proof fn closed_groups_do_not_count(text: Seq<char>, inside: Seq<char>, c: char)
    requires
        reading(text) is Plain,
        forall|k: int|
            0 <= k < inside.len() ==> inside[k] != '{' && inside[k] != '}' && inside[k] != '['
                && inside[k] != '\\',
    ensures
        brace_depth((text.push('{') + inside).push('}')) == brace_depth(text),
        brace_depth(text.push('\\').push(c)) == brace_depth(text),
        reading(text.push('\\').push(c)) is Plain,
{
    let open = text.push('{');
    assert(open.drop_last() =~= text);
    lemma_plain(open, inside);
    let all = (open + inside).push('}');
    assert(all.drop_last() =~= open + inside);
    let slash = text.push('\\');
    assert(slash.drop_last() =~= text);
    assert(slash.push(c).drop_last() =~= slash);
    assert(reading(slash) is Escaped);
    assert(brace_depth(slash) == brace_depth(text));
}

proof fn lemma_plain(text: Seq<char>, inside: Seq<char>)
    requires
        reading(text) is Plain,
        forall|k: int|
            0 <= k < inside.len() ==> inside[k] != '{' && inside[k] != '}' && inside[k] != '['
                && inside[k] != '\\',
    ensures
        reading(text + inside) is Plain,
        brace_depth(text + inside) == brace_depth(text),
    decreases inside.len(),
{
    if inside.len() == 0 {
        assert(text + inside =~= text);
    } else {
        let rest = inside.drop_last();
        assert(forall|k: int| 0 <= k < rest.len() ==> rest[k] == inside[k]);
        lemma_plain(text, rest);
        assert((text + inside).drop_last() =~= text + rest);
        assert((text + inside).last() == inside.last());
        assert(inside[inside.len() - 1] == inside.last());
    }
}

} // verus!
