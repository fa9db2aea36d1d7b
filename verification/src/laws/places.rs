//! What paths name, and what collections of them hold.

use crate::entry::{EntryKind, FileEntry, KindView};
use crate::laws::planning::is_listed;
use crate::order::{lex_less, lex_total, parts_ways};
use crate::path::{
    behind_cur_dir, byte_order, depth, is_rooted, join_concatenates_parts, join_of,
    parent_drops_last_part, part_less, part_order, parts, path_order_is_total,
    pieces_are_components, root_is_one_component, starts_with, strip_drops_prefix_parts,
    trailing_separators_do_not_count, PartView, UnixPath, SEP,
};
use crate::tree::{
    found_at, holds, lookup, lookup_at, lookup_is_somewhere, put_all_keeps_the_last,
    put_records_one_path, with_path_adds_one, without_path_drops_one, Item, PathSet, Tree,
};
use vstd::prelude::*;

verus! {

/// What a piece between separators names: nothing if it is empty or `.`, the
/// directory above for `..`, and otherwise an entry of that name.
pub open spec fn piece(bytes: Seq<u8>) -> Seq<PartView> {
    if bytes.len() == 0 || bytes == seq![0x2eu8] {
        Seq::empty()
    } else if bytes == seq![0x2eu8, 0x2eu8] {
        seq![PartView::ParentDir]
    } else {
        seq![PartView::Normal(bytes)]
    }
}

/// The components of a path are what its pieces name, one after the other; a `/`
/// in front is the root, and a `.` counts only in front. A piece behind a path and
/// a `/` adds what it names to the components of that path, however many `/`
/// stand in between.
pub proof fn components_are_the_pieces(base: Seq<u8>, last: Seq<u8>)
    requires
        !last.contains(0x2fu8),
    ensures
        parts(last) == if last == seq![0x2eu8] {
            seq![PartView::CurDir]
        } else {
            piece(last)
        },
        parts(seq![0x2fu8] + last) == seq![PartView::Root] + piece(last),
        base.len() > 0 ==> parts(base.push(0x2f) + last) == parts(base) + piece(last),
{
    pieces_are_components(last);
    root_is_one_component();
    assert(behind_cur_dir(parts(last)) =~= piece(last));
    let root = seq![SEP];
    assert(join_of(root, last) =~= root + last);
    join_concatenates_parts(root, last);
    if base.len() > 0 {
        let longer = base.push(SEP);
        trailing_separators_do_not_count(base);
        assert(join_of(longer, last) == longer + last);
        join_concatenates_parts(longer, last);
    }
}

/// The file name of a path is its last piece, if that is a name.
pub proof fn names_are_last_pieces(base: Seq<u8>, last: Seq<u8>, path: &UnixPath, name: Option<
    Vec<u8>,
>)
    requires
        call_ensures(UnixPath::file_name, (path,), name),
        !last.contains(0x2fu8),
        path@ == last || (path@ == base.push(0x2f) + last),
        last.len() > 0,
        last != seq![0x2eu8],
    ensures
        name is Some <==> last != seq![0x2eu8, 0x2eu8],
        name matches Some(n) ==> n@ == last,
{
    components_are_the_pieces(base, last);
    if base.len() == 0 {
        assert(base.push(0x2f) + last =~= seq![0x2fu8] + last);
    }
    let all = parts(path@);
    assert(piece(last).len() == 1);
    assert(all.last() == piece(last)[0]);
    assert(all.len() > 0);
}

/// A path keeps its bytes, and is compared by its components.
pub proof fn paths_keep_their_bytes(
    raw: Vec<u8>,
    path: UnixPath,
    other: &UnixPath,
    bytes: &Vec<u8>,
    copy: UnixPath,
    same: bool,
    n: usize,
    empty: bool,
    rooted: bool,
)
    requires
        call_ensures(UnixPath::new, (raw,), path),
        call_ensures(UnixPath::as_bytes, (&path,), bytes),
        call_ensures(UnixPath::duplicate, (&path,), copy),
        call_ensures(UnixPath::same, (&path, other), same),
        call_ensures(UnixPath::depth, (&path,), n),
        call_ensures(UnixPath::is_empty, (&path,), empty),
        call_ensures(UnixPath::is_rooted, (&path,), rooted),
    ensures
        path@ == raw@,
        bytes@ == raw@,
        copy@ == raw@,
        same <==> parts(path@) == parts(other@),
        n == parts(path@).len(),
        empty <==> raw@.len() == 0,
        rooted <==> raw@.len() > 0 && raw@[0] == 0x2f,
{
}

/// The parent has all components but the last, and starts with the same bytes. The
/// root and the empty path have none.
pub proof fn parents_lack_the_last_component(path: &UnixPath, parent: Option<UnixPath>, dots: bool)
    requires
        call_ensures(UnixPath::parent, (path,), parent),
        call_ensures(UnixPath::ends_in_parent, (path,), dots),
    ensures
        parent is Some <==> parts(path@).len() > 0 && parts(path@).last() != PartView::Root,
        parent matches Some(p) ==> parts(p@) == parts(path@).drop_last(),
        parent matches Some(p) ==> p@.len() <= path@.len() && p@ == path@.take(
            p@.len() as int,
        ),
        dots <==> parts(path@).len() > 0 && parts(path@).last() == PartView::ParentDir,
{
    parent_drops_last_part(path@);
    if let Some(p) = parent {
        crate::path::parents_are_prefixes(path@);
    }
}

/// Joining puts the second path behind the first, with one `/` between them if
/// there is none yet; the components line up. A path with a `/` in front stands for
/// itself.
pub proof fn joining_lines_up_components(base: &UnixPath, rel: &UnixPath, joined: UnixPath)
    requires
        call_ensures(UnixPath::join, (base, rel), joined),
    ensures
        rel@.len() > 0 && rel@[0] == 0x2f ==> joined@ == rel@,
        !(rel@.len() > 0 && rel@[0] == 0x2f) ==> {
            &&& base@.len() == 0 ==> joined@ == rel@
            &&& base@.len() > 0 && base@.last() == 0x2f ==> joined@ == base@ + rel@
            &&& base@.len() > 0 && base@.last() != 0x2f ==> joined@ == base@ + seq![0x2fu8] + rel@
            &&& base@.len() > 0 && (parts(rel@).len() == 0 || parts(rel@)[0] != PartView::CurDir)
                ==> parts(joined@) == parts(base@) + parts(rel@)
        },
{
    if !is_rooted(rel@) {
        join_concatenates_parts(base@, rel@);
        assert(base@.push(SEP) + rel@ =~= base@ + seq![0x2fu8] + rel@);
    }
}

/// A path lies in another one, or is it, exactly if its components start with those
/// of the other one; what lies behind has the other components.
pub proof fn what_lies_behind_a_path(
    path: &UnixPath,
    prefix: &UnixPath,
    inside: bool,
    rest: Option<UnixPath>,
)
    requires
        call_ensures(UnixPath::starts_with, (path, prefix), inside),
        call_ensures(UnixPath::strip_prefix, (path, prefix), rest),
    ensures
        inside <==> exists|tail: Seq<PartView>| parts(path@) == #[trigger] (parts(prefix@) + tail),
        rest is Some <==> inside,
        rest matches Some(r) ==> parts(path@) == parts(prefix@) + parts(r@),
        rest matches Some(r) ==> crate::path::stands_in(r@, path@),
{
    let n = depth(prefix@) as int;
    if inside {
        assert(parts(path@) =~= parts(prefix@) + parts(path@).skip(n));
    }
    if exists|tail: Seq<PartView>| parts(path@) == #[trigger] (parts(prefix@) + tail) {
        let tail = choose|tail: Seq<PartView>| parts(path@) == #[trigger] (parts(prefix@) + tail);
        assert(parts(path@).take(n) =~= parts(prefix@));
    }
    strip_drops_prefix_parts(path@, prefix@);
    if let Some(r) = rest {
        assert(parts(path@) =~= parts(prefix@) + parts(path@).skip(n));
        crate::path::rests_stand_in_their_paths(path@, prefix@);
    }
}

/// The bytes of `x` come before those of `y`: they agree up to a place where `x`
/// ends, or has the smaller byte.
pub open spec fn comes_first(x: Seq<u8>, y: Seq<u8>) -> bool {
    exists|k: int|
        #![trigger x.take(k)]
        0 <= k <= x.len() && k < y.len() && x.take(k) == y.take(k) && (k == x.len() || x[k]
            < y[k])
}

/// Paths are ordered by the first component in which they differ, names by their
/// bytes; a directory comes before what lies in it, and names come behind all other
/// components.
pub proof fn paths_are_ordered_by_names(
    a: &UnixPath,
    b: &UnixPath,
    first: bool,
    k: int,
    x: Seq<u8>,
    y: Seq<u8>,
)
    requires
        call_ensures(UnixPath::precedes, (a, b), first),
        0 <= k <= depth(a@),
        k < depth(b@),
        parts(a@).take(k) == parts(b@).take(k),
    ensures
        k == depth(a@) ==> first,
        k < depth(a@) && !(parts(a@)[k] is Normal) && parts(b@)[k] is Normal ==> first,
        k < depth(a@) && parts(a@)[k] is Normal && !(parts(b@)[k] is Normal) ==> !first,
        k < depth(a@) && parts(a@)[k] == PartView::Normal(x) && parts(b@)[k] == PartView::Normal(y)
            && x != y ==> (first <==> comes_first(x, y)),
{
    let p = parts(a@);
    let q = parts(b@);
    if k == depth(a@) {
        assert(parts_ways(p, q, k, part_order()));
    } else if !(p[k] is Normal) && q[k] is Normal {
        assert(part_less(p[k], q[k]));
        assert(parts_ways(p, q, k, part_order()));
    } else if p[k] is Normal && !(q[k] is Normal) {
        assert(part_less(q[k], p[k]));
        assert(parts_ways(q, p, k, part_order()));
        path_order_is_total(b@, a@);
    } else if p[k] == PartView::Normal(x) && q[k] == PartView::Normal(y) && x != y {
        lemma_comes_first(x, y);
        if comes_first(x, y) {
            assert(parts_ways(p, q, k, part_order()));
        } else {
            let less = byte_order();
            assert(crate::order::strict_total(less));
            lex_total(x, y, less);
            assert(part_less(q[k], p[k]));
            assert(parts_ways(q, p, k, part_order()));
            path_order_is_total(b@, a@);
        }
    }
}

proof fn lemma_comes_first(x: Seq<u8>, y: Seq<u8>)
    ensures
        comes_first(x, y) <==> lex_less(x, y, byte_order()),
{
    if comes_first(x, y) {
        let k = choose|k: int|
            #![trigger x.take(k)]
            0 <= k <= x.len() && k < y.len() && x.take(k) == y.take(k) && (k == x.len() || x[k]
                < y[k]);
        assert(parts_ways(x, y, k, byte_order()));
    }
    if lex_less(x, y, byte_order()) {
        let k = choose|k: int| parts_ways(x, y, k, byte_order());
        assert(x.take(k) == y.take(k));
    }
}

/// What a tree records for a place is the entry that stands there.
pub proof fn trees_are_searched_by_place(tree: &Tree, path: &UnixPath, entry: Option<&FileEntry>)
    requires
        tree.wf(),
        call_ensures(Tree::get, (tree, path), entry),
    ensures
        entry is Some <==> exists|k: int|
            0 <= k < tree@.len() && parts((#[trigger] tree@[k]).path) == parts(path@),
        forall|k: int|
            0 <= k < tree@.len() && parts((#[trigger] tree@[k]).path) == parts(path@)
                ==> entry->0@ == tree@[k].entry,
{
    tree.is_sorted();
    if entry is Some {
        let k = lookup_is_somewhere(tree@, path@);
        assert(parts(tree@[k].path) == parts(path@));
    }
    assert forall|k: int|
        0 <= k < tree@.len() && parts((#[trigger] tree@[k]).path) == parts(path@) implies entry
        is Some && entry->0@ == tree@[k].entry by {
        lookup_at(tree@, k, path@);
    }
}

/// Recording an entry changes what the tree has for its place, and nothing else.
pub proof fn trees_record_one_place(tree: &mut Tree, path: UnixPath, entry: FileEntry, q: Seq<u8>)
    requires
        old(tree).wf(),
        call_ensures(Tree::insert, (tree, path, entry), ()),
    ensures
        parts(q) == parts(path@) ==> lookup(final(tree)@, q) == Some(entry@),
        parts(q) != parts(path@) ==> lookup(final(tree)@, q) == lookup(old(tree)@, q),
{
    old(tree).is_sorted();
    put_records_one_path(old(tree)@, Item { path: path@, entry: entry@ });
}

/// A tree has as many entries as it counts, and gives them out at their positions.
pub proof fn trees_give_out_their_entries(
    tree: &Tree,
    n: usize,
    empty: bool,
    i: usize,
    path: &UnixPath,
    entry: &FileEntry,
    none: Tree,
)
    requires
        call_ensures(Tree::new, (), none),
        call_ensures(Tree::len, (tree,), n),
        call_ensures(Tree::is_empty, (tree,), empty),
        i < tree@.len(),
        call_ensures(Tree::path_at, (tree, i), path),
        call_ensures(Tree::entry_at, (tree, i), entry),
    ensures
        none@.len() == 0,
        n == tree@.len(),
        empty <==> tree@.len() == 0,
        path@ == tree@[i as int].path,
        entry@ == tree@[i as int].entry,
{
}

/// A set of paths holds what was put in and not taken out again, in any spelling.
pub proof fn sets_hold_what_was_put_in(
    none: PathSet,
    more: &mut PathSet,
    less: &mut PathSet,
    path: UnixPath,
    set: &PathSet,
    q: &UnixPath,
    there: bool,
)
    requires
        call_ensures(PathSet::new, (), none),
        old(more).wf(),
        old(less).wf(),
        call_ensures(PathSet::insert, (more, path), ()),
        call_ensures(PathSet::remove, (less, &path), ()),
        call_ensures(PathSet::contains, (set, q), there),
    ensures
        none@.len() == 0,
        is_listed(final(more)@, q@) <==> is_listed(old(more)@, q@) || parts(q@) == parts(path@),
        is_listed(final(less)@, q@) <==> is_listed(old(less)@, q@) && parts(q@) != parts(path@),
        there <==> is_listed(set@, q@),
{
    old(more).is_sorted();
    old(less).is_sorted();
    with_path_adds_one(old(more)@, path@);
    without_path_drops_one(old(less)@, path@);
    lemma_listed(old(more)@, q@);
    lemma_listed(final(more)@, q@);
    lemma_listed(old(less)@, q@);
    lemma_listed(final(less)@, q@);
    lemma_listed(set@, q@);
}

proof fn lemma_listed(list: Seq<Seq<u8>>, path: Seq<u8>)
    ensures
        is_listed(list, path) <==> holds(list, path),
{
    if is_listed(list, path) {
        let k = choose|k: int| 0 <= k < list.len() && parts(#[trigger] list[k]) == parts(path);
        assert(found_at(list, k, path));
    }
    if holds(list, path) {
        let k = choose|k: int| found_at(list, k, path);
        assert(parts(list[k]) == parts(path));
    }
}

/// Of several entries for one place the last one is recorded, and a set gives out its
/// members.
pub proof fn last_entries_count(
    list: Vec<(UnixPath, FileEntry)>,
    tree: Tree,
    i: int,
    set: &PathSet,
    n: usize,
    empty: bool,
    k: usize,
    member: &UnixPath,
)
    requires
        call_ensures(Tree::from_entries, (list,), tree),
        0 <= i < list@.len(),
        forall|m: int| i < m < list@.len() ==> parts((#[trigger] list@[m]).0@) != parts(
            list@[i].0@,
        ),
        call_ensures(PathSet::len, (set,), n),
        call_ensures(PathSet::is_empty, (set,), empty),
        k < set@.len(),
        call_ensures(PathSet::path_at, (set, k), member),
    ensures
        lookup(tree@, list@[i].0@) == Some(list@[i].1@),
        n == set@.len(),
        empty <==> set@.len() == 0,
        member@ == set@[k as int],
{
    let all = crate::tree::items(list@);
    put_all_keeps_the_last(all);
    lemma_last(all, i, all.len() as int);
    assert(all.take(all.len() as int) =~= all);
}

proof fn lemma_last(list: Seq<Item>, i: int, n: int)
    requires
        0 <= i < n <= list.len(),
        forall|m: int| i < m < n ==> parts((#[trigger] list[m]).path) != parts(list[i].path),
    ensures
        crate::tree::last_of(list.take(n), list[i].path) == Some(list[i].entry),
    decreases n,
{
    assert(list.take(n).last() == list[n - 1]);
    assert(list.take(n).drop_last() =~= list.take(n - 1));
    if n - 1 > i {
        assert(parts(list[n - 1].path) != parts(list[i].path));
        lemma_last(list, i, n - 1);
    }
}

/// An entry is seen as it is recorded, and a copy of it is the same.
pub proof fn entries_are_seen_as_they_are(entry: &FileEntry, copy: FileEntry)
    requires
        call_ensures(FileEntry::clone, (entry,), copy),
    ensures
        entry@.size == entry.size,
        entry@.mtime == entry.mtime,
        entry@.mode == entry.mode,
        entry@.kind is File <==> entry.kind is File,
        entry@.kind is Dir <==> entry.kind is Dir,
        entry.kind matches EntryKind::Symlink { target } ==> entry@.kind == KindView::Symlink(
            target@,
        ),
        copy@ == entry@,
{
}

/// The file name of a path is its last component, if that is a name.
pub proof fn names_are_last_components(path: &UnixPath, name: Option<Vec<u8>>)
    requires
        call_ensures(UnixPath::file_name, (path,), name),
    ensures
        name is Some <==> parts(path@).len() > 0 && parts(path@).last() is Normal,
        name matches Some(n) ==> parts(path@).last() == PartView::Normal(n@),
{
}

} // verus!
