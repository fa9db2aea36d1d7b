//! Exclusion patterns.
//!
//! The globs themselves are parsed and matched by the `globset` crate. The
//! items at the top of this file state what is relied on; everything else is
//! proved from them.

use crate::agreement::{actions_spell_paths_as_recorded, named};
use crate::path::{name_of, UnixPath};
use crate::plan::planned;
use crate::text::to_chars;
use crate::tree::{ascending, paths_of, Item};
use vstd::prelude::*;

verus! {

// ---------------------------------------------------------------------------
// Relied on: the crate `globset`, and the quoting of texts
// ---------------------------------------------------------------------------

/// A compiled set of globs.
#[verifier::external_type_specification]
#[verifier::external_body]
pub struct ExGlobSet(globset::GlobSet);

/// A set of globs that is being put together.
#[verifier::external_type_specification]
#[verifier::external_body]
pub struct ExGlobSetBuilder(globset::GlobSetBuilder);

/// The text of the error with which `globset` refuses to parse a pattern, or
/// nothing for a pattern that it accepts. `literal_separator` says whether a `/`
/// has to be matched literally, so that neither `*` nor `?` matches one.
pub uninterp spec fn glob_refusal(pattern: Seq<char>, literal_separator: bool) -> Option<Seq<char>>;

/// The pattern matches the path.
pub uninterp spec fn glob_matches(
    pattern: Seq<char>,
    literal_separator: bool,
    path: Seq<u8>,
) -> bool;

/// The patterns that were added to a set under construction, each with its
/// choice of literal separators.
pub uninterp spec fn builder_patterns(builder: globset::GlobSetBuilder) -> Seq<(Seq<char>, bool)>;

/// The patterns of a set, each with its choice of literal separators.
pub uninterp spec fn set_patterns(set: globset::GlobSet) -> Seq<(Seq<char>, bool)>;

/// A text in double quotes, with what is not printable escaped.
pub uninterp spec fn quoted(text: Seq<char>) -> Seq<char>;

/// `globset::GlobSetBuilder::new`: a set without patterns.
#[verifier::external_body]
fn new_builder() -> (builder: globset::GlobSetBuilder)
    ensures
        builder_patterns(builder) == Seq::<(Seq<char>, bool)>::empty(),
{
    globset::GlobSetBuilder::new()
}

/// `globset::GlobBuilder::build` with the choice of literal separators, followed
/// by `globset::GlobSetBuilder::add`. Whether the pattern parses, and the error
/// text if it does not, depend on the pattern and that choice alone; a pattern
/// that parses is added behind the others, and a refused one leaves the set as
/// it was. Turning a pattern into a regex recurses into nested braces, so that
/// deep nesting has to be kept out.
#[verifier::external_body]
fn add_pattern(
    builder: &mut globset::GlobSetBuilder,
    pattern: &str,
    literal_separator: bool,
) -> (added: Result<(), String>)
    requires
        is_shallow(pattern@),
    ensures
        match added {
            Ok(_) => glob_refusal(pattern@, literal_separator) is None && builder_patterns(
                *final(builder),
            ) == builder_patterns(*old(builder)).push((pattern@, literal_separator)),
            Err(text) => glob_refusal(pattern@, literal_separator) == Some(text@)
                && builder_patterns(*final(builder)) == builder_patterns(*old(builder)),
        },
{
    let built = globset::GlobBuilder::new(pattern).literal_separator(literal_separator).build();
    let glob = built.map_err(|e| e.to_string())?;
    builder.add(glob);
    Ok(())
}

/// `globset::GlobSetBuilder::build`: a set that is built has the patterns that
/// were added. Whether it can be built is left unsaid: a set that compiles to
/// too large an automaton is refused, and that size depends on the machine.
#[verifier::external_body]
fn build_set(builder: &globset::GlobSetBuilder) -> (built: Result<globset::GlobSet, String>)
    ensures
        built matches Ok(set) ==> set_patterns(set) == builder_patterns(*builder),
{
    builder.build().map_err(|e| e.to_string())
}

/// `globset::GlobSet::is_match_candidate` on the bytes of a path: true when any
/// pattern of the set matches.
#[verifier::external_body]
fn set_matches(set: &globset::GlobSet, path: &Vec<u8>) -> (hit: bool)
    ensures
        hit == (exists|i: int|
            0 <= i < set_patterns(*set).len() && glob_matches(
                (#[trigger] set_patterns(*set)[i]).0,
                set_patterns(*set)[i].1,
                path@,
            )),
{
    set.is_match_candidate(&globset::Candidate::from_bytes(path))
}

/// `globset::GlobSet::clone`: a set with the same patterns.
#[verifier::external_body]
fn copy_set(set: &globset::GlobSet) -> (copy: globset::GlobSet)
    ensures
        set_patterns(copy) == set_patterns(*set),
{
    set.clone()
}

/// The `Debug` text of a `str`.
#[verifier::external_body]
fn quote(text: &str) -> (out: String)
    ensures
        out@ == quoted(text@),
{
    format!("{text:?}")
}

// ---------------------------------------------------------------------------
// The filter
// ---------------------------------------------------------------------------

/// How deep braces may be nested in a pattern. The regex engine behind `globset`
/// refuses groups that are nested more deeply than that.
pub const MAX_BRACE_DEPTH: usize = 250;

/// What the next character of a pattern is part of.
pub enum Reading {
    Plain,
    /// It stands behind a `\`.
    Escaped,
    /// It stands behind the `[` of a class.
    ClassOpen,
    /// It stands behind the `[!` or `[^` of a class, and cannot close it.
    ClassFirst,
    Class,
}

/// What a character that follows on `at` makes of it.
pub open spec fn read_on(at: Reading, c: char) -> Reading {
    match at {
        Reading::Plain => if c == '\\' {
            Reading::Escaped
        } else if c == '[' {
            Reading::ClassOpen
        } else {
            Reading::Plain
        },
        Reading::Escaped => Reading::Plain,
        Reading::ClassOpen => if c == '!' || c == '^' {
            Reading::ClassFirst
        } else {
            Reading::Class
        },
        Reading::ClassFirst => Reading::Class,
        Reading::Class => if c == ']' {
            Reading::Plain
        } else {
            Reading::Class
        },
    }
}

/// What follows on the text is part of.
pub open spec fn reading(text: Seq<char>) -> Reading
    decreases text.len(),
{
    if text.len() == 0 {
        Reading::Plain
    } else {
        read_on(reading(text.drop_last()), text.last())
    }
}

/// How deep braces are nested at the end of the text. Braces that are escaped or
/// part of a class do not count.
pub open spec fn brace_depth(text: Seq<char>) -> nat
    decreases text.len(),
{
    if text.len() == 0 {
        0
    } else {
        let rest = text.drop_last();
        let depth = brace_depth(rest);
        if !(reading(rest) is Plain) {
            depth
        } else if text.last() == '{' {
            depth + 1
        } else if text.last() == '}' && depth > 0 {
            (depth - 1) as nat
        } else {
            depth
        }
    }
}

/// Braces are nowhere nested too deeply.
pub open spec fn is_shallow(pattern: Seq<char>) -> bool {
    forall|i: int|
        0 <= i <= pattern.len() ==> brace_depth(#[trigger] pattern.take(i)) <= MAX_BRACE_DEPTH
}

/// `*` and `?` do not cross a directory boundary.
pub const LITERAL_SEPARATOR: bool = true;

/// The patterns as they are handed to the matcher.
pub open spec fn globs(patterns: Seq<Seq<char>>) -> Seq<(Seq<char>, bool)> {
    patterns.map_values(|p: Seq<char>| (p, LITERAL_SEPARATOR))
}

/// Some glob of the list matches.
pub open spec fn any_matches(list: Seq<(Seq<char>, bool)>, path: Seq<u8>) -> bool {
    exists|i: int| 0 <= i < list.len() && glob_matches((#[trigger] list[i]).0, list[i].1, path)
}

/// The pattern is matched against whole paths, not against file names.
pub open spec fn is_path_pattern(pattern: Seq<char>) -> bool {
    pattern.contains('/')
}

/// The texts of a list of strings.
pub open spec fn texts(list: Seq<String>) -> Seq<Seq<char>> {
    list.map_values(|s: String| s@)
}

/// The patterns that are matched against file names.
pub open spec fn for_names(patterns: Seq<Seq<char>>) -> Seq<Seq<char>> {
    patterns.filter(|p: Seq<char>| !is_path_pattern(p))
}

/// The patterns that are matched against whole paths.
pub open spec fn for_paths(patterns: Seq<Seq<char>>) -> Seq<Seq<char>> {
    patterns.filter(|p: Seq<char>| is_path_pattern(p))
}

/// These patterns exclude the path.
pub open spec fn excluded(patterns: Seq<Seq<char>>, rel: Seq<u8>) -> bool {
    ||| name_of(rel) matches Some(name) && any_matches(globs(for_names(patterns)), name)
    ||| any_matches(globs(for_paths(patterns)), rel)
}

/// The pattern can be used.
pub open spec fn is_usable(pattern: Seq<char>) -> bool {
    is_shallow(pattern) && glob_refusal(pattern, LITERAL_SEPARATOR) is None
}

/// All patterns can be used.
pub open spec fn all_usable(patterns: Seq<Seq<char>>) -> bool {
    forall|i: int| 0 <= i < patterns.len() ==> is_usable(#[trigger] patterns[i])
}

/// Pattern `i` is the first that cannot be used.
pub open spec fn first_refused(patterns: Seq<Seq<char>>, i: int) -> bool {
    &&& 0 <= i < patterns.len()
    &&& !is_usable(patterns[i])
    &&& all_usable(patterns.take(i))
}

/// The error tells of the first pattern that cannot be used.
pub open spec fn tells_of_refusal(patterns: Seq<Seq<char>>, error: FilterError) -> bool {
    exists|i: int| #[trigger] first_refused(patterns, i) && match error {
        FilterError::Pattern { pattern, reason } => {
            &&& patterns[i] == pattern@
            &&& is_shallow(pattern@)
            &&& glob_refusal(pattern@, LITERAL_SEPARATOR) == Some(reason@)
        },
        FilterError::TooDeep { pattern } => patterns[i] == pattern@ && !is_shallow(pattern@),
        FilterError::Compile { .. } => false,
    }
}

/// Why a filter cannot be made.
#[derive(Debug)]
pub enum FilterError {
    /// A pattern does not parse.
    Pattern { pattern: String, reason: String },
    /// The braces of a pattern are nested too deeply.
    TooDeep { pattern: String },
    /// The patterns parse, but cannot be compiled together.
    Compile { reason: String },
}

impl FilterError {
    /// The message for the user.
    pub open spec fn text(self) -> Seq<char> {
        match self {
            FilterError::Pattern { pattern, reason } => "Invalid --exclude pattern "@ + quoted(
                pattern@,
            ) + ": "@ + reason@,
            FilterError::TooDeep { pattern } => "Invalid --exclude pattern "@ + quoted(pattern@)
                + ": braces are nested too deeply"@,
            FilterError::Compile { reason } => reason@,
        }
    }

    /// The message for the user.
    pub fn message(&self) -> (text: String)
        ensures
            text@ == self.text(),
    {
        match self {
            FilterError::Pattern { pattern, reason } => {
                let mut out = String::from_str("Invalid --exclude pattern ");
                out.append(quote(pattern.as_str()).as_str());
                out.append(": ");
                out.append(reason.as_str());
                out
            },
            FilterError::TooDeep { pattern } => {
                let mut out = String::from_str("Invalid --exclude pattern ");
                out.append(quote(pattern.as_str()).as_str());
                out.append(": braces are nested too deeply");
                out
            },
            FilterError::Compile { reason } => reason.clone(),
        }
    }
}

/// Exclusion filter for scan entries.
///
/// Applied to BOTH source and target: an excluded target entry is invisible and
/// is therefore neither overwritten nor deleted as extraneous. Without that
/// symmetry, mirroring two macOS volume roots would be impossible: each disk
/// has its own `.Spotlight-V100`/`.fseventsd`, and `.Trashes` cannot even be
/// deleted.
///
/// Pattern kinds (deliberately reduced rsync semantics):
/// - without `/`: matches the file name at any depth (`.DS_Store`, `*.tmp`)
/// - with `/`: matches the full relative path, and `*` does not cross a
///   directory boundary (`sub/*.txt`)
#[derive(Debug)]
pub struct Filter {
    names: Option<globset::GlobSet>,
    paths: Option<globset::GlobSet>,
}

/// The patterns of a set that may be missing.
spec fn patterns_of(set: Option<globset::GlobSet>) -> Seq<(Seq<char>, bool)> {
    match set {
        Some(s) => set_patterns(s),
        None => Seq::empty(),
    }
}

impl Filter {
    /// There is a pattern of one kind or the other.
    pub closed spec fn is_set(self) -> bool {
        self.names is Some || self.paths is Some
    }

    /// The patterns that file names are matched against.
    pub closed spec fn name_patterns(self) -> Seq<(Seq<char>, bool)> {
        patterns_of(self.names)
    }

    /// The patterns that whole paths are matched against.
    pub closed spec fn path_patterns(self) -> Seq<(Seq<char>, bool)> {
        patterns_of(self.paths)
    }

    /// The filter holds these patterns.
    pub open spec fn holds_patterns(self, patterns: Seq<Seq<char>>) -> bool {
        self.name_patterns() == globs(for_names(patterns)) && self.path_patterns() == globs(
            for_paths(patterns),
        )
    }

    /// A filter from patterns. The first pattern that cannot be used is
    /// reported; whether patterns that all parse can be compiled together is up
    /// to `globset`.
    pub fn new(patterns: &[String]) -> (made: Result<Filter, FilterError>)
        ensures
            match made {
                Ok(filter) => {
                    &&& all_usable(texts(patterns@))
                    &&& filter.holds_patterns(texts(patterns@))
                    &&& filter.is_set() == (patterns@.len() > 0)
                },
                Err(FilterError::Compile { reason }) => all_usable(texts(patterns@))
                    && patterns@.len() > 0,
                Err(error) => tells_of_refusal(texts(patterns@), error),
            },
    {
        let (names, paths) = match sort_patterns(patterns) {
            Ok(builders) => builders,
            Err(error) => {
                return Err(error);
            },
        };
        let named = match names {
            Some(builder) => Some(build_set(&builder)),
            None => None,
        };
        let pathed = match paths {
            Some(builder) => Some(build_set(&builder)),
            None => None,
        };
        assemble(named, pathed)
    }

    /// True if no pattern is set at all. The scan then skips the filter
    /// callback entirely.
    pub fn is_empty(&self) -> (empty: bool)
        ensures
            empty == !self.is_set(),
            empty ==> self.name_patterns().len() == 0 && self.path_patterns().len() == 0,
    {
        self.names.is_none() && self.paths.is_none()
    }

    /// True if `rel` (path relative to the root) is excluded.
    pub fn excludes(&self, rel: &UnixPath) -> (hit: bool)
        ensures
            hit == ((name_of(rel@) matches Some(name) && any_matches(self.name_patterns(), name))
                || any_matches(self.path_patterns(), rel@)),
            forall|patterns: Seq<Seq<char>>| #[trigger]
                self.holds_patterns(patterns) ==> hit == excluded(patterns, rel@),
    {
        if let Some(set) = &self.names {
            if let Some(name) = rel.file_name() {
                if set_matches(set, &name) {
                    return true;
                }
            }
        }
        match &self.paths {
            Some(set) => set_matches(set, rel.as_bytes()),
            None => false,
        }
    }
}

impl Clone for Filter {
    fn clone(&self) -> (copy: Filter)
        ensures
            copy.name_patterns() == self.name_patterns(),
            copy.path_patterns() == self.path_patterns(),
            copy.is_set() == self.is_set(),
    {
        let names = match &self.names {
            Some(set) => Some(copy_set(set)),
            None => None,
        };
        let paths = match &self.paths {
            Some(set) => Some(copy_set(set)),
            None => None,
        };
        Filter { names, paths }
    }
}

impl Default for Filter {
    /// A filter without patterns.
    fn default() -> (filter: Filter)
        ensures
            filter.holds_patterns(Seq::empty()),
            !filter.is_set(),
    {
        proof {
            reveal(Seq::filter);
            assert(globs(for_names(Seq::empty())) =~= Seq::empty());
            assert(globs(for_paths(Seq::empty())) =~= Seq::empty());
        }
        Filter { names: None, paths: None }
    }
}

/// The patterns of a set under construction that may be missing.
pub open spec fn patterns_added(builder: Option<globset::GlobSetBuilder>) -> Seq<
    (Seq<char>, bool),
> {
    match builder {
        Some(b) => builder_patterns(b),
        None => Seq::empty(),
    }
}

/// Parses patterns and sorts them into those that are matched against file
/// names and those that are matched against whole paths. A kind without any
/// pattern has no set.
pub fn sort_patterns(patterns: &[String]) -> (sorted: Result<
    (Option<globset::GlobSetBuilder>, Option<globset::GlobSetBuilder>),
    FilterError,
>)
    ensures
        match sorted {
            Ok((names, paths)) => {
                &&& all_usable(texts(patterns@))
                &&& patterns_added(names) == globs(for_names(texts(patterns@)))
                &&& patterns_added(paths) == globs(for_paths(texts(patterns@)))
                &&& names is Some <==> for_names(texts(patterns@)).len() > 0
                &&& paths is Some <==> for_paths(texts(patterns@)).len() > 0
                &&& names is Some || paths is Some <==> patterns@.len() > 0
            },
            Err(error) => tells_of_refusal(texts(patterns@), error),
        },
{
    let ghost all = texts(patterns@);
    let mut names = new_builder();
    let mut paths = new_builder();
    let mut has_names = false;
    let mut has_paths = false;
    let mut i: usize = 0;
    proof {
        reveal(Seq::filter);
        assert(all.take(0) =~= Seq::<Seq<char>>::empty());
        assert(globs(for_names(all.take(0))) =~= Seq::empty());
        assert(globs(for_paths(all.take(0))) =~= Seq::empty());
    }
    while i < patterns.len()
        invariant
            i <= patterns@.len(),
            all == texts(patterns@),
            all_usable(all.take(i as int)),
            builder_patterns(names) == globs(for_names(all.take(i as int))),
            builder_patterns(paths) == globs(for_paths(all.take(i as int))),
            has_names == (for_names(all.take(i as int)).len() > 0),
            has_paths == (for_paths(all.take(i as int)).len() > 0),
            (has_names || has_paths) == (i > 0),
        decreases patterns@.len() - i,
    {
        let pattern = &patterns[i];
        let ghost at = i as int;
        proof {
            lemma_one_more_pattern(all, at);
        }
        assert(all[at] == pattern@);
        if !braces_fit(pattern.as_str()) {
            assert(first_refused(all, at));
            return Err(FilterError::TooDeep { pattern: pattern.clone() });
        }
        let added = if has_slash(pattern.as_str()) {
            let added = add_pattern(&mut paths, pattern.as_str(), LITERAL_SEPARATOR);
            if added.is_ok() {
                has_paths = true;
            }
            added
        } else {
            let added = add_pattern(&mut names, pattern.as_str(), LITERAL_SEPARATOR);
            if added.is_ok() {
                has_names = true;
            }
            added
        };
        match added {
            Ok(_) => {},
            Err(reason) => {
                assert(first_refused(all, at));
                return Err(FilterError::Pattern { pattern: pattern.clone(), reason });
            },
        }
        i += 1;
    }
    assert(all.take(all.len() as int) =~= all);
    let named = if has_names {
        Some(names)
    } else {
        None
    };
    let pathed = if has_paths {
        Some(paths)
    } else {
        None
    };
    assert(!has_names ==> globs(for_names(all)) =~= Seq::empty());
    assert(!has_paths ==> globs(for_paths(all)) =~= Seq::empty());
    Ok((named, pathed))
}

/// True when braces are nowhere nested too deeply.
fn braces_fit(pattern: &str) -> (fit: bool)
    ensures
        fit == is_shallow(pattern@),
{
    let chars = to_chars(pattern);
    let ghost text = pattern@;
    let mut depth: usize = 0;
    let mut at = Reading::Plain;
    let mut i: usize = 0;
    assert(text.take(0) =~= Seq::<char>::empty());
    while i < chars.len()
        invariant
            text == pattern@,
            chars@ == text,
            i <= text.len(),
            depth == brace_depth(text.take(i as int)),
            depth <= MAX_BRACE_DEPTH,
            at == reading(text.take(i as int)),
            forall|k: int|
                0 <= k <= i ==> brace_depth(#[trigger] text.take(k)) <= MAX_BRACE_DEPTH,
        decreases text.len() - i,
    {
        let c = chars[i];
        assert(text.take(i + 1).drop_last() =~= text.take(i as int));
        assert(text.take(i + 1).last() == c);
        if let Reading::Plain = at {
            if c == '{' {
                depth += 1;
            } else if c == '}' && depth > 0 {
                depth -= 1;
            }
        }
        at = read_char(at, c);
        i += 1;
        if depth > MAX_BRACE_DEPTH {
            assert(brace_depth(text.take(i as int)) > MAX_BRACE_DEPTH);
            return false;
        }
    }
    true
}

fn read_char(at: Reading, c: char) -> (next: Reading)
    ensures
        next == read_on(at, c),
{
    match at {
        Reading::Plain => if c == '\\' {
            Reading::Escaped
        } else if c == '[' {
            Reading::ClassOpen
        } else {
            Reading::Plain
        },
        Reading::Escaped => Reading::Plain,
        Reading::ClassOpen => if c == '!' || c == '^' {
            Reading::ClassFirst
        } else {
            Reading::Class
        },
        Reading::ClassFirst => Reading::Class,
        Reading::Class => if c == ']' {
            Reading::Plain
        } else {
            Reading::Class
        },
    }
}

/// Puts a filter together from the two sets as far as they are wanted. If one
/// could not be compiled there is no filter; the set for names is looked at
/// first.
pub fn assemble(
    names: Option<Result<globset::GlobSet, String>>,
    paths: Option<Result<globset::GlobSet, String>>,
) -> (made: Result<Filter, FilterError>)
    ensures
        match (names, paths) {
            (Some(Err(e)), _) => made matches Err(FilterError::Compile { reason }) && reason == e,
            (_, Some(Err(e))) => made matches Err(FilterError::Compile { reason }) && reason == e,
            _ => {
                &&& made matches Ok(filter)
                &&& filter.is_set() == (names is Some || paths is Some)
                &&& filter.name_patterns() == match names {
                    Some(Ok(set)) => set_patterns(set),
                    _ => Seq::empty(),
                }
                &&& filter.path_patterns() == match paths {
                    Some(Ok(set)) => set_patterns(set),
                    _ => Seq::empty(),
                }
            },
        },
{
    let names = match names {
        Some(Ok(set)) => Some(set),
        Some(Err(reason)) => {
            return Err(FilterError::Compile { reason });
        },
        None => None,
    };
    let paths = match paths {
        Some(Ok(set)) => Some(set),
        Some(Err(reason)) => {
            return Err(FilterError::Compile { reason });
        },
        None => None,
    };
    Ok(Filter { names, paths })
}

/// What one pattern more adds to the two kinds.
proof fn lemma_one_more_pattern(all: Seq<Seq<char>>, i: int)
    requires
        0 <= i < all.len(),
    ensures
        for_names(all.take(i + 1)) == if is_path_pattern(all[i]) {
            for_names(all.take(i))
        } else {
            for_names(all.take(i)).push(all[i])
        },
        for_paths(all.take(i + 1)) == if is_path_pattern(all[i]) {
            for_paths(all.take(i)).push(all[i])
        } else {
            for_paths(all.take(i))
        },
        globs(for_names(all.take(i)).push(all[i])) == globs(for_names(all.take(i))).push(
            (all[i], LITERAL_SEPARATOR),
        ),
        globs(for_paths(all.take(i)).push(all[i])) == globs(for_paths(all.take(i))).push(
            (all[i], LITERAL_SEPARATOR),
        ),
        all_usable(all.take(i)) && is_usable(all[i]) ==> all_usable(all.take(i + 1)),
{
    reveal(Seq::filter);
    let more = all.take(i + 1);
    assert(more.drop_last() =~= all.take(i));
    assert(more.last() == all[i]);
    assert(globs(for_names(all.take(i)).push(all[i])) =~= globs(for_names(all.take(i))).push(
        (all[i], LITERAL_SEPARATOR),
    ));
    assert(globs(for_paths(all.take(i)).push(all[i])) =~= globs(for_paths(all.take(i))).push(
        (all[i], LITERAL_SEPARATOR),
    ));
    if all_usable(all.take(i)) && is_usable(all[i]) {
        assert forall|k: int| 0 <= k < more.len() implies is_usable(#[trigger] more[k]) by {
            if k < i {
                assert(all.take(i)[k] == more[k]);
            }
        }
    }
}

/// True when the pattern contains a `/`.
fn has_slash(pattern: &str) -> (yes: bool)
    ensures
        yes == is_path_pattern(pattern@),
{
    let chars = to_chars(pattern);
    let mut i: usize = 0;
    while i < chars.len()
        invariant
            i <= chars@.len(),
            chars@ == pattern@,
            forall|k: int| 0 <= k < i ==> chars@[k] != '/',
        decreases chars@.len() - i,
    {
        if chars[i] == '/' {
            return true;
        }
        i += 1;
    }
    false
}

/// Without patterns nothing is excluded.
pub proof fn no_pattern_excludes_nothing(rel: Seq<u8>)
    ensures
        !excluded(Seq::empty(), rel),
{
    reveal(Seq::filter);
    assert(globs(for_names(Seq::empty())).len() == 0);
    assert(globs(for_paths(Seq::empty())).len() == 0);
}

/// A file name that a pattern excludes is excluded at any depth: a pattern
/// without `/` looks at the name alone.
pub proof fn names_are_excluded_at_any_depth(patterns: Seq<Seq<char>>, a: Seq<u8>, b: Seq<u8>)
    requires
        for_paths(patterns).len() == 0,
        name_of(a) == name_of(b),
    ensures
        excluded(patterns, a) == excluded(patterns, b),
{
}

/// More patterns never exclude less.
pub proof fn more_patterns_exclude_more(
    patterns: Seq<Seq<char>>,
    more: Seq<Seq<char>>,
    rel: Seq<u8>,
)
    requires
        excluded(patterns, rel),
    ensures
        excluded(patterns + more, rel),
{
    let f = |p: Seq<char>| !is_path_pattern(p);
    let g = |p: Seq<char>| is_path_pattern(p);
    Seq::filter_distributes_over_add(patterns, more, f);
    Seq::filter_distributes_over_add(patterns, more, g);
    if name_of(rel) matches Some(name) && any_matches(globs(for_names(patterns)), name) {
        let name = name_of(rel)->0;
        let a = globs(for_names(patterns));
        let i = choose|i: int|
            0 <= i < a.len() && glob_matches((#[trigger] a[i]).0, a[i].1, name);
        assert(globs(for_names(patterns + more))[i] == a[i]);
    } else {
        let a = globs(for_paths(patterns));
        let i = choose|i: int| 0 <= i < a.len() && glob_matches((#[trigger] a[i]).0, a[i].1, rel);
        assert(globs(for_paths(patterns + more))[i] == a[i]);
    }
}

/// A plan for two trees without excluded entries names no excluded path: such
/// entries are neither overwritten nor deleted on their own account.
pub proof fn excluded_paths_are_never_named(
    patterns: Seq<Seq<char>>,
    src: Seq<Item>,
    dst: Seq<Item>,
    tol: i64,
    forced: Seq<Seq<u8>>,
    k: int,
)
    requires
        ascending(paths_of(src)),
        ascending(paths_of(dst)),
        forall|i: int| 0 <= i < src.len() ==> !excluded(patterns, (#[trigger] src[i]).path),
        forall|i: int| 0 <= i < dst.len() ==> !excluded(patterns, (#[trigger] dst[i]).path),
        0 <= k < planned(src, dst, tol, forced).len(),
    ensures
        !excluded(patterns, named(planned(src, dst, tol, forced)[k])),
{
    actions_spell_paths_as_recorded(src, dst, tol, forced, k);
}

} // verus!
