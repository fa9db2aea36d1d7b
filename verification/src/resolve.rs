//! Resolving the two root directories and keeping them apart.

use crate::agreement::{actions_spell_paths_as_recorded, named};
use crate::path::{
    behind_cur_dir, depth, dot_is_the_current_directory, empty_path_has_no_parts, is_rooted,
    join_concatenates_parts, join_of, names_are_plain, parent_drops_last_part, parent_of, parts,
    root_comes_first, same_path, starts_with, PartView, UnixPath, DOT,
};
use crate::plan::planned;
use crate::tree::{ascending, paths_of, Item};
use vstd::prelude::*;

verus! {

// ---------------------------------------------------------------------------
// Resolving a path as far as it exists
// ---------------------------------------------------------------------------

/// What asking the system for the canonical form of a path brought.
#[derive(Debug)]
pub enum Canonical {
    Found(UnixPath),
    NotFound,
    Error,
}

/// Where resolving a path stands.
#[derive(Debug)]
pub enum Resolution {
    /// The canonical form of [`Resolver::asked`] is needed.
    Ask,
    /// The path is resolved.
    Resolved(UnixPath),
    /// Nothing of the path exists that could be resolved.
    Unresolvable,
    /// The system reported an error.
    Failed,
}

/// Resolves a path as far as it exists: the deepest existing ancestor is
/// canonicalized, and the not-yet-existing remainder is appended lexically.
///
/// Necessary because the target must not be created before it is known to lie
/// outside the source, yet keeping the two apart needs resolved paths: otherwise
/// `..`, a symlink or a relative path could not be recognized as nesting.
///
/// A `..` in the remainder takes away the name in front of it. What is left may
/// exist after all, so it is resolved once more.
#[derive(Debug)]
pub struct Resolver {
    cur: UnixPath,
    /// The names that were cut off, the last one first.
    tail: Vec<UnixPath>,
    /// How many names in front of those a `..` still takes away.
    ups: usize,
    /// A `..` was cut off.
    dotted: bool,
}

/// The directory `n` levels above; the root is its own parent.
pub open spec fn ascended(base: Seq<u8>, n: nat) -> Seq<u8>
    decreases n,
{
    if n == 0 {
        base
    } else {
        ascended(
            match parent_of(base) {
                Some(up) => up,
                None => base,
            },
            (n - 1) as nat,
        )
    }
}

/// The path with one more name behind it.
pub open spec fn extended(base: Seq<u8>, names: Seq<Seq<u8>>) -> Seq<u8>
    decreases names.len(),
{
    if names.len() == 0 {
        base
    } else {
        extended(join_of(base, names.last()), names.drop_last())
    }
}

/// The bytes of each of the names.
pub open spec fn name_bytes(names: Seq<UnixPath>) -> Seq<Seq<u8>> {
    names.map_values(|n: UnixPath| n@)
}

/// The directory to look at next: a relative path without a parent is resolved
/// against the working directory.
pub open spec fn parent_or_here(path: Seq<u8>) -> Seq<u8> {
    match parent_of(path) {
        Some(p) => if p.len() == 0 {
            seq![DOT]
        } else {
            p
        },
        None => seq![DOT],
    }
}

/// The last component can be cut off: it is a name or `..`.
pub open spec fn can_be_cut(path: Seq<u8>) -> bool {
    depth(path) > 0 && (parts(path).last() is Normal || parts(path).last() is ParentDir)
}

/// How often a resolver can still have to ask for a shorter path.
pub open spec fn cuts_left(path: Seq<u8>) -> nat {
    if can_be_cut(path) {
        depth(path)
    } else {
        0
    }
}

/// The names, and the number of names that are taken away in front of them, once
/// `part` was cut off too.
pub open spec fn with_cut(part: PartView, cut: (nat, Seq<Seq<u8>>)) -> (nat, Seq<Seq<u8>>) {
    match part {
        PartView::Normal(name) => if cut.0 > 0 {
            ((cut.0 - 1) as nat, cut.1)
        } else {
            (0, cut.1.push(name))
        },
        PartView::ParentDir => (cut.0 + 1, cut.1),
        _ => cut,
    }
}

impl Resolver {
    /// The path whose canonical form is asked for.
    pub closed spec fn asks(self) -> Seq<u8> {
        self.cur@
    }

    /// What was cut off: how many names a `..` still takes away, and the names
    /// behind them, the last one first.
    pub closed spec fn cut_off(self) -> (nat, Seq<Seq<u8>>) {
        (self.ups as nat, name_bytes(self.tail@))
    }

    /// A `..` was cut off.
    pub closed spec fn is_dotted(self) -> bool {
        self.dotted
    }

    /// What is still to be cut off can be counted.
    pub closed spec fn wf(self) -> bool {
        &&& self.ups + cuts_left(self.cur@) <= usize::MAX
        &&& !self.dotted ==> self.ups == 0
    }

    /// Starts with the whole path.
    pub fn start(path: &UnixPath) -> (resolver: Resolver)
        ensures
            resolver.wf(),
            resolver.asks() == path@,
            resolver.cut_off() == (0nat, Seq::<Seq<u8>>::empty()),
            !resolver.is_dotted(),
    {
        let n = path.depth();
        assert(cuts_left(path@) <= n);
        let resolver = Resolver {
            cur: path.duplicate(),
            tail: Vec::new(),
            ups: 0,
            dotted: false,
        };
        assert(name_bytes(resolver.tail@) =~= Seq::<Seq<u8>>::empty());
        resolver
    }

    /// The path whose canonical form is asked for.
    pub fn asked(&self) -> (path: &UnixPath)
        ensures
            path@ == self.asks(),
    {
        &self.cur
    }

    /// Takes in the answer. A path that was not found is cut by its last
    /// component, which is appended to the answer later on.
    pub fn answer(&mut self, answer: Canonical) -> (state: Resolution)
        requires
            old(self).wf(),
        ensures
            final(self).wf(),
            match answer {
                Canonical::Found(base) => {
                    let clean = extended(
                        ascended(base@, old(self).cut_off().0),
                        old(self).cut_off().1,
                    );
                    if old(self).is_dotted() {
                        &&& state is Ask
                        &&& final(self).asks() == clean
                        &&& final(self).cut_off() == (0nat, Seq::<Seq<u8>>::empty())
                        &&& !final(self).is_dotted()
                    } else {
                        state matches Resolution::Resolved(path) && path@ == clean
                    }
                },
                Canonical::NotFound => if can_be_cut(old(self).asks()) {
                    let part = parts(old(self).asks()).last();
                    &&& state is Ask
                    &&& final(self).asks() == parent_or_here(old(self).asks())
                    &&& final(self).cut_off() == with_cut(part, old(self).cut_off())
                    &&& final(self).is_dotted() == (old(self).is_dotted() || part is ParentDir)
                } else {
                    state is Unresolvable
                },
                Canonical::Error => state is Failed,
            },
    {
        match answer {
            Canonical::Found(base) => {
                let path = self.cleaned(base);
                if self.dotted {
                    let n = path.depth();
                    assert(cuts_left(path@) <= n);
                    self.tail = Vec::new();
                    self.ups = 0;
                    self.dotted = false;
                    self.cur = path;
                    assert(name_bytes(self.tail@) =~= Seq::<Seq<u8>>::empty());
                    Resolution::Ask
                } else {
                    Resolution::Resolved(path)
                }
            },
            Canonical::NotFound => {
                let name = self.cur.file_name();
                let dots = self.cur.ends_in_parent();
                if name.is_none() && !dots {
                    return Resolution::Unresolvable;
                }
                proof {
                    cuts_come_to_an_end(self.cur@);
                }
                let up = match self.cur.parent() {
                    Some(up) => {
                        if up.is_empty() {
                            here()
                        } else {
                            up
                        }
                    },
                    None => here(),
                };
                self.cur = up;
                match name {
                    Some(name) => {
                        if self.ups > 0 {
                            self.ups -= 1;
                        } else {
                            let ghost before = self.tail@;
                            let name = UnixPath::new(name);
                            self.tail.push(name);
                            assert(name_bytes(self.tail@) =~= name_bytes(before).push(name@));
                        }
                    },
                    None => {
                        self.ups += 1;
                        self.dotted = true;
                    },
                }
                Resolution::Ask
            },
            Canonical::Error => Resolution::Failed,
        }
    }

    /// The base with what was cut off behind it.
    fn cleaned(&self, base: UnixPath) -> (path: UnixPath)
        ensures
            path@ == extended(ascended(base@, self.cut_off().0), self.cut_off().1),
    {
        let mut path = base;
        let ghost top = ascended(base@, self.ups as nat);
        let mut n: usize = self.ups;
        while n > 0
            invariant
                top == ascended(path@, n as nat),
            decreases n,
        {
            n -= 1;
            if let Some(up) = path.parent() {
                path = up;
            }
        }
        let ghost names = name_bytes(self.tail@);
        let mut i: usize = self.tail.len();
        assert(names.take(i as int) =~= names);
        while i > 0
            invariant
                names == name_bytes(self.tail@),
                i <= self.tail@.len(),
                extended(top, names) == extended(path@, names.take(i as int)),
            decreases i,
        {
            i -= 1;
            let ghost before = names.take(i + 1);
            assert(before.last() == self.tail@[i as int]@);
            assert(before.drop_last() =~= names.take(i as int));
            path = path.join(&self.tail[i]);
        }
        assert(names.take(0).len() == 0);
        path
    }
}

/// The working directory.
fn here() -> (path: UnixPath)
    ensures
        path@ == seq![DOT],
{
    let mut raw: Vec<u8> = Vec::new();
    raw.push(DOT);
    assert(raw@ =~= seq![DOT]);
    UnixPath::new(raw)
}

/// Each cut leaves fewer components to cut off.
pub proof fn cuts_come_to_an_end(path: Seq<u8>)
    requires
        can_be_cut(path),
    ensures
        cuts_left(parent_or_here(path)) < cuts_left(path),
{
    parent_drops_last_part(path);
    dot_is_the_current_directory();
}

/// The names as components, in the order in which they stood in the path.
pub open spec fn name_parts(cut_off: Seq<Seq<u8>>) -> Seq<PartView> {
    Seq::new(cut_off.len(), |k: int| PartView::Normal(cut_off[cut_off.len() - 1 - k]))
}

/// Each of them is a plain name.
pub open spec fn plain_names(cut_off: Seq<Seq<u8>>) -> bool {
    forall|k: int|
        0 <= k < cut_off.len() ==> parts(#[trigger] cut_off[k]) == seq![
            PartView::Normal(cut_off[k]),
        ] && !is_rooted(cut_off[k])
}

/// The path is made of what is asked for and the components `rest`, where `.` may
/// stand for the working directory.
pub open spec fn made_of(path: Seq<u8>, asks: Seq<u8>, rest: Seq<PartView>) -> bool {
    parts(path) == parts(asks) + rest || (asks == seq![DOT] && parts(path) == rest)
}

/// What is left of components once each `..` has taken away the name in front of
/// it.
pub open spec fn reduced(rest: Seq<PartView>) -> (nat, Seq<Seq<u8>>)
    decreases rest.len(),
{
    if rest.len() == 0 {
        (0, Seq::empty())
    } else {
        with_cut(rest[0], reduced(rest.skip(1)))
    }
}

/// Cutting off a component loses nothing of the path: it goes in front of those
/// that were cut off before, and what a resolver keeps is what is left of them.
pub proof fn cutting_loses_nothing(path: Seq<u8>, asks: Seq<u8>, rest: Seq<PartView>)
    requires
        made_of(path, asks, rest),
        can_be_cut(asks),
    ensures
        made_of(path, parent_or_here(asks), seq![parts(asks).last()] + rest),
        reduced(seq![parts(asks).last()] + rest) == with_cut(parts(asks).last(), reduced(rest)),
{
    let last = parts(asks).last();
    let more = seq![last] + rest;
    dot_is_the_current_directory();
    empty_path_has_no_parts();
    parent_drops_last_part(asks);
    assert(more.skip(1) =~= rest);
    let up = parent_of(asks)->0;
    assert(parts(asks) =~= parts(asks).drop_last().push(last));
    assert(parts(path) =~= parts(up) + more);
    if up.len() == 0 {
        assert(up =~= Seq::<u8>::empty());
        assert(parts(path) =~= more);
    }
}

/// A name and a `..` behind it cancel each other.
pub proof fn dots_take_names_away(name: Seq<u8>, rest: Seq<PartView>)
    ensures
        reduced(seq![PartView::Normal(name), PartView::ParentDir] + rest) == reduced(rest),
{
    let a = seq![PartView::Normal(name), PartView::ParentDir] + rest;
    let b = seq![PartView::ParentDir] + rest;
    assert(a.skip(1) =~= b);
    assert(b.skip(1) =~= rest);
    assert(reduced(b) == with_cut(PartView::ParentDir, reduced(rest)));
}

/// The names that are left of the components of a path are plain names.
pub proof fn names_left_are_plain(path: Seq<u8>, rest: Seq<PartView>)
    requires
        forall|k: int| 0 <= k < rest.len() ==> parts(path).contains(#[trigger] rest[k]),
    ensures
        plain_names(reduced(rest).1),
    decreases rest.len(),
{
    if rest.len() > 0 {
        let more = rest.skip(1);
        assert forall|k: int| 0 <= k < more.len() implies parts(path).contains(
            #[trigger] more[k],
        ) by {
            assert(more[k] == rest[k + 1]);
        }
        names_left_are_plain(path, more);
        assert(parts(path).contains(rest[0]));
        let i = choose|i: int| 0 <= i < parts(path).len() && parts(path)[i] == rest[0];
        names_are_plain(path, i);
    }
}

/// Going up from an absolute path cuts off components, but never the root.
pub proof fn going_up_cuts_components(base: Seq<u8>, n: nat)
    requires
        is_rooted(base),
        depth(base) > 0,
    ensures
        parts(ascended(base, n)) == parts(base).take(
            if n < depth(base) {
                depth(base) - n
            } else {
                1
            },
        ),
    decreases n,
{
    assert(parts(base)[0] == PartView::Root);
    if n == 0 {
        assert(parts(base).take(depth(base) as int) =~= parts(base));
    } else if depth(base) == 1 {
        assert(parent_of(base) is None);
        going_up_cuts_components(base, (n - 1) as nat);
    } else {
        let d = depth(base) as int;
        if parts(base)[d - 1] == PartView::Root {
            root_comes_first(base, d - 1);
        }
        let up = parent_of(base)->0;
        parent_drops_last_part(base);
        assert(is_rooted(up)) by {
            assert(parts(up)[0] == PartView::Root);
            root_comes_first(up, 0);
        }
        going_up_cuts_components(up, (n - 1) as nat);
        let m = if n < d {
            d - n
        } else {
            1
        };
        assert(parts(up).take(m) =~= parts(base).take(m));
    }
}

/// Appending the names that were cut off appends their components.
pub proof fn missing_names_are_appended(base: Seq<u8>, cut_off: Seq<Seq<u8>>)
    requires
        base.len() > 0,
        plain_names(cut_off),
    ensures
        parts(extended(base, cut_off)) == parts(base) + name_parts(cut_off),
    decreases cut_off.len(),
{
    if cut_off.len() == 0 {
        assert(parts(base) + name_parts(cut_off) =~= parts(base));
    } else {
        let name = cut_off.last();
        let rest = cut_off.drop_last();
        let next = join_of(base, name);
        assert(parts(cut_off[cut_off.len() - 1]) == seq![PartView::Normal(name)]);
        join_concatenates_parts(base, name);
        assert(parts(next) == parts(base) + seq![PartView::Normal(name)]);
        assert forall|k: int| 0 <= k < rest.len() implies parts(#[trigger] rest[k]) == seq![
            PartView::Normal(rest[k]),
        ] && !is_rooted(rest[k]) by {
            assert(rest[k] == cut_off[k]);
        }
        missing_names_are_appended(next, rest);
        assert(name_parts(cut_off) =~= seq![PartView::Normal(name)] + name_parts(rest));
        assert(parts(base) + seq![PartView::Normal(name)] + name_parts(rest) =~= parts(base)
            + name_parts(cut_off));
    }
}

/// A `..` is among the components.
pub open spec fn has_dots(path: Seq<u8>) -> bool {
    parts(path).contains(PartView::ParentDir)
}

/// Resolving comes to an end: what is resolved once more, because a `..` was cut
/// off, has no `..` any more.
pub proof fn dots_are_resolved_once(base: Seq<u8>, n: nat, names: Seq<Seq<u8>>)
    requires
        is_rooted(base),
        !has_dots(base),
        plain_names(names),
    ensures
        !has_dots(extended(ascended(base, n), names)),
{
    let top = ascended(base, n);
    assert(parts(base)[0] == PartView::Root);
    going_up_cuts_components(base, n);
    empty_path_has_no_parts();
    assert(top.len() > 0) by {
        if top.len() == 0 {
            assert(top =~= Seq::<u8>::empty());
        }
    }
    missing_names_are_appended(top, names);
    let all = parts(extended(top, names));
    if all.contains(PartView::ParentDir) {
        let k = choose|k: int| 0 <= k < all.len() && all[k] == PartView::ParentDir;
        if k < parts(top).len() {
            assert(all[k] == parts(base)[k]);
        } else {
            assert(all[k] == name_parts(names)[k - parts(top).len()]);
        }
    }
}

/// Cutting a path without `..` brings none in.
pub proof fn cuts_bring_no_dots(path: Seq<u8>)
    requires
        can_be_cut(path),
        !has_dots(path),
    ensures
        !(parts(path).last() is ParentDir),
        !has_dots(parent_or_here(path)),
{
    let up = parent_or_here(path);
    assert(parts(path)[depth(path) - 1] == parts(path).last());
    parent_drops_last_part(path);
    dot_is_the_current_directory();
    if has_dots(up) {
        let k = choose|k: int| 0 <= k < parts(up).len() && parts(up)[k] == PartView::ParentDir;
        if up != seq![DOT] {
            assert(parts(path)[k] == PartView::ParentDir);
        }
    }
}

// ---------------------------------------------------------------------------
// Keeping source and target apart
// ---------------------------------------------------------------------------

/// Why source and target cannot be used together.
#[derive(Debug, Clone, Copy, PartialEq, Eq, Structural)]
pub enum Overlap {
    /// They are the same directory.
    Identical,
    /// The target lies inside the source.
    TargetInsideSource,
    /// The source lies inside the target, and mirroring would delete it.
    SourceInsideTarget,
}

/// What two resolved directories have in common.
pub open spec fn overlap_of(src: Seq<u8>, dst: Seq<u8>) -> Option<Overlap> {
    if same_path(src, dst) {
        Some(Overlap::Identical)
    } else if starts_with(dst, src) {
        Some(Overlap::TargetInsideSource)
    } else if starts_with(src, dst) {
        Some(Overlap::SourceInsideTarget)
    } else {
        None
    }
}

/// Makes sure that source and target, both resolved, are neither identical nor
/// nested inside one another.
pub fn check_disjoint(source: &UnixPath, dest: &UnixPath) -> (checked: Result<(), Overlap>)
    ensures
        match checked {
            Ok(_) => overlap_of(source@, dest@) is None,
            Err(overlap) => overlap_of(source@, dest@) == Some(overlap),
        },
{
    if source.same(dest) {
        return Err(Overlap::Identical);
    }
    if dest.starts_with(source) {
        return Err(Overlap::TargetInsideSource);
    }
    if source.starts_with(dest) {
        return Err(Overlap::SourceInsideTarget);
    }
    Ok(())
}

/// Directories do not overlap exactly when neither lies in the other, or is the
/// other; so it does not matter which of them is the source.
pub proof fn overlap_is_symmetric(a: Seq<u8>, b: Seq<u8>)
    ensures
        overlap_of(a, b) is None <==> !starts_with(a, b) && !starts_with(b, a),
        overlap_of(a, b) is None <==> overlap_of(b, a) is None,
{
    if same_path(a, b) {
        assert(parts(a).take(depth(b) as int) =~= parts(b));
        assert(parts(b).take(depth(a) as int) =~= parts(a));
    }
}

/// The target, and whatever lies below it, neither lies in a source that does not
/// overlap with it nor holds it.
pub proof fn what_lies_below_the_target(src: Seq<u8>, dst: Seq<u8>, path: Seq<u8>)
    requires
        overlap_of(src, dst) is None,
        starts_with(path, dst),
    ensures
        !starts_with(path, src),
        !starts_with(src, path),
{
    let d = depth(dst) as int;
    let s = depth(src) as int;
    overlap_is_symmetric(src, dst);
    if starts_with(path, src) {
        if s <= d {
            assert(parts(dst).take(s) =~= parts(path).take(s));
        } else {
            assert(parts(src).take(d) =~= parts(path).take(d));
        }
    }
    if starts_with(src, path) {
        assert(parts(src).take(d) =~= parts(path).take(d));
    }
}

/// Below a target that does not overlap with the source, no path lies in the
/// source or holds it.
pub proof fn target_paths_stay_out_of_the_source(src: Seq<u8>, dst: Seq<u8>, rel: Seq<u8>)
    requires
        overlap_of(src, dst) is None,
        dst.len() > 0,
        !is_rooted(rel),
    ensures
        !starts_with(join_of(dst, rel), src),
        !starts_with(src, join_of(dst, rel)),
{
    let path = join_of(dst, rel);
    join_concatenates_parts(dst, rel);
    assert(parts(path).take(depth(dst) as int) =~= parts(dst));
    what_lies_below_the_target(src, dst, path);
}

/// No action of a plan names a place in the source, once source and target are
/// known not to overlap: mirroring leaves the source as it is.
pub proof fn plans_leave_the_source_alone(
    source_root: Seq<u8>,
    dest_root: Seq<u8>,
    src: Seq<Item>,
    dst: Seq<Item>,
    tol: i64,
    forced: Seq<Seq<u8>>,
    k: int,
)
    requires
        overlap_of(source_root, dest_root) is None,
        dest_root.len() > 0,
        ascending(paths_of(src)),
        ascending(paths_of(dst)),
        forall|i: int| 0 <= i < src.len() ==> !is_rooted((#[trigger] src[i]).path),
        forall|i: int| 0 <= i < dst.len() ==> !is_rooted((#[trigger] dst[i]).path),
        0 <= k < planned(src, dst, tol, forced).len(),
    ensures
        ({
            let path = join_of(dest_root, named(planned(src, dst, tol, forced)[k]));
            !starts_with(path, source_root) && !starts_with(source_root, path)
        }),
{
    let rel = named(planned(src, dst, tol, forced)[k]);
    actions_spell_paths_as_recorded(src, dst, tol, forced, k);
    target_paths_stay_out_of_the_source(source_root, dest_root, rel);
}

/// Creating a target that does not overlap with the source creates nothing in
/// it: neither the target nor any directory on the way to it lies there.
pub proof fn targets_are_created_outside_the_source(src: Seq<u8>, dst: Seq<u8>, dir: Seq<u8>)
    requires
        overlap_of(src, dst) is None,
        starts_with(dst, dir),
    ensures
        !starts_with(dir, src),
{
    overlap_is_symmetric(src, dst);
    if starts_with(dir, src) {
        let s = depth(src) as int;
        assert(parts(dst).take(s) =~= parts(dst).take(depth(dir) as int).take(s));
    }
}

} // verus!
