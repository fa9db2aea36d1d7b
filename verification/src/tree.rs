//! Sorted collections of paths: a scanned tree, and a set of paths.
//!
//! Two spellings of one path are one member. The members stand in ascending
//! order.

use crate::entry::{EntryView, FileEntry};
use crate::path::{
    path_less, path_order_is_total, path_order_is_transitive, same_path, UnixPath,
};
use vstd::prelude::*;

verus! {

/// A path with what was found there.
pub struct Item {
    pub path: Seq<u8>,
    pub entry: EntryView,
}

/// The bytes of each path of a list.
pub open spec fn raws(list: Seq<UnixPath>) -> Seq<Seq<u8>> {
    list.map_values(|p: UnixPath| p@)
}

/// The paths of a tree.
pub open spec fn paths_of(tree: Seq<Item>) -> Seq<Seq<u8>> {
    tree.map_values(|item: Item| item.path)
}

/// Each path comes before all later ones.
pub open spec fn ascending(list: Seq<Seq<u8>>) -> bool {
    forall|i: int, j: int|
        #![trigger list[i], list[j]]
        0 <= i < j < list.len() ==> path_less(list[i], list[j])
}

/// Position `i` holds `path`.
pub open spec fn found_at(list: Seq<Seq<u8>>, i: int, path: Seq<u8>) -> bool {
    0 <= i < list.len() && same_path(list[i], path)
}

/// The list holds `path`, in some spelling.
pub open spec fn holds(list: Seq<Seq<u8>>, path: Seq<u8>) -> bool {
    exists|i: int| found_at(list, i, path)
}

/// What the tree records for `path`.
pub open spec fn lookup(tree: Seq<Item>, path: Seq<u8>) -> Option<EntryView> {
    if holds(paths_of(tree), path) {
        Some(tree[choose|i: int| found_at(paths_of(tree), i, path)].entry)
    } else {
        None
    }
}

/// The last entry that a list gives for `path`.
pub open spec fn last_of(list: Seq<Item>, path: Seq<u8>) -> Option<EntryView>
    decreases list.len(),
{
    if list.len() == 0 {
        None
    } else if same_path(path, list.last().path) {
        Some(list.last().entry)
    } else {
        last_of(list.drop_last(), path)
    }
}

/// The contents of a list of entries.
pub open spec fn items(list: Seq<(UnixPath, FileEntry)>) -> Seq<Item> {
    list.map_values(|pair: (UnixPath, FileEntry)| Item { path: pair.0@, entry: pair.1@ })
}

/// Everything before position `i` comes before `path`, everything from there on
/// behind it.
pub open spec fn is_gap(list: Seq<Seq<u8>>, i: int, path: Seq<u8>) -> bool {
    &&& 0 <= i <= list.len()
    &&& forall|k: int| 0 <= k < i ==> path_less(#[trigger] list[k], path)
    &&& forall|k: int| i <= k < list.len() ==> path_less(path, #[trigger] list[k])
}

/// The tree with `item` recorded. The entry of a path that is there already is
/// replaced, and its spelling kept.
pub open spec fn put(tree: Seq<Item>, item: Item) -> Seq<Item> {
    let list = paths_of(tree);
    if holds(list, item.path) {
        let i = choose|i: int| found_at(list, i, item.path);
        tree.update(i, Item { path: tree[i].path, entry: item.entry })
    } else {
        tree.insert(choose|i: int| is_gap(list, i, item.path), item)
    }
}

/// The tree that recording these items one after the other gives.
pub open spec fn put_all(list: Seq<Item>) -> Seq<Item>
    decreases list.len(),
{
    if list.len() == 0 {
        Seq::empty()
    } else {
        put(put_all(list.drop_last()), list.last())
    }
}

/// In a sorted list a path stands in one place only.
pub proof fn found_once(list: Seq<Seq<u8>>, i: int, j: int, path: Seq<u8>)
    requires
        ascending(list),
        found_at(list, i, path),
        found_at(list, j, path),
    ensures
        i == j,
{
    path_order_is_total(list[i], list[j]);
    path_order_is_total(list[j], list[i]);
}

/// In a sorted tree, what stands at a position is what its path looks up.
pub proof fn lookup_at(tree: Seq<Item>, i: int, path: Seq<u8>)
    requires
        ascending(paths_of(tree)),
        0 <= i < tree.len(),
        same_path(tree[i].path, path),
    ensures
        lookup(tree, path) == Some(tree[i].entry),
{
    assert(found_at(paths_of(tree), i, path));
    let j = choose|j: int| found_at(paths_of(tree), j, path);
    found_once(paths_of(tree), i, j, path);
}

/// What a path looks up stands at some position.
pub proof fn lookup_is_somewhere(tree: Seq<Item>, path: Seq<u8>) -> (i: int)
    requires
        lookup(tree, path) is Some,
    ensures
        0 <= i < tree.len(),
        same_path(tree[i].path, path),
        lookup(tree, path) == Some(tree[i].entry),
{
    choose|i: int| found_at(paths_of(tree), i, path)
}

/// Looking up does not depend on the spelling.
pub proof fn lookup_ignores_spelling(tree: Seq<Item>, a: Seq<u8>, b: Seq<u8>)
    requires
        ascending(paths_of(tree)),
        same_path(a, b),
    ensures
        lookup(tree, a) == lookup(tree, b),
{
    if lookup(tree, a) is Some {
        let i = lookup_is_somewhere(tree, a);
        lookup_at(tree, i, b);
    }
    if lookup(tree, b) is Some {
        let i = lookup_is_somewhere(tree, b);
        lookup_at(tree, i, a);
    }
}

/// Finds the place of `path` in a sorted list: where it stands, or where it
/// would have to be put.
fn locate(list: &Vec<UnixPath>, path: &UnixPath) -> (place: (usize, bool))
    requires
        ascending(raws(list@)),
    ensures
        place.1 ==> found_at(raws(list@), place.0 as int, path@),
        !place.1 ==> {
            &&& place.0 <= list@.len()
            &&& !holds(raws(list@), path@)
            &&& forall|i: int| 0 <= i < place.0 ==> path_less(#[trigger] raws(list@)[i], path@)
            &&& forall|i: int|
                place.0 <= i < list@.len() ==> path_less(path@, #[trigger] raws(list@)[i])
        },
{
    let ghost keys = raws(list@);
    let mut low: usize = 0;
    let mut high: usize = list.len();
    while low < high
        invariant
            keys == raws(list@),
            ascending(keys),
            low <= high <= list@.len(),
            forall|i: int| 0 <= i < low ==> path_less(#[trigger] keys[i], path@),
            forall|i: int| high <= i < keys.len() ==> path_less(path@, #[trigger] keys[i]),
        decreases high - low,
    {
        let mid = low + (high - low) / 2;
        if list[mid].precedes(path) {
            assert forall|i: int| 0 <= i < mid + 1 implies path_less(#[trigger] keys[i], path@) by {
                if i < mid {
                    path_order_is_transitive(keys[i], keys[mid as int], path@);
                }
            }
            low = mid + 1;
        } else if path.precedes(&list[mid]) {
            assert forall|i: int| mid <= i < keys.len() implies path_less(
                path@,
                #[trigger] keys[i],
            ) by {
                if mid < i {
                    path_order_is_transitive(path@, keys[mid as int], keys[i]);
                }
            }
            high = mid;
        } else {
            proof {
                path_order_is_total(keys[mid as int], path@);
                assert(found_at(keys, mid as int, path@));
            }
            return (mid, true);
        }
    }
    proof {
        assert forall|i: int| !found_at(keys, i, path@) by {
            if 0 <= i < keys.len() {
                path_order_is_total(keys[i], path@);
                path_order_is_total(path@, keys[i]);
                if i < low {
                    assert(path_less(keys[i], path@));
                } else {
                    assert(path_less(path@, keys[i]));
                }
            }
        }
    }
    (low, false)
}

proof fn lemma_insert_ascending(list: Seq<Seq<u8>>, at: int, path: Seq<u8>)
    requires
        ascending(list),
        0 <= at <= list.len(),
        forall|i: int| 0 <= i < at ==> path_less(#[trigger] list[i], path),
        forall|i: int| at <= i < list.len() ==> path_less(path, #[trigger] list[i]),
    ensures
        ascending(list.insert(at, path)),
{
    let out = list.insert(at, path);
    assert forall|i: int, j: int|
        #![trigger out[i], out[j]]
        0 <= i < j < out.len() implies path_less(out[i], out[j]) by {
        let a = if i < at {
            i
        } else {
            i - 1
        };
        let b = if j < at {
            j
        } else {
            j - 1
        };
        if i == at {
            assert(out[j] == list[b]);
        } else if j == at {
            assert(out[i] == list[a]);
        } else {
            assert(out[i] == list[a] && out[j] == list[b]);
        }
    }
}

/// A path has one place in a sorted list.
proof fn lemma_one_gap(list: Seq<Seq<u8>>, i: int, j: int, path: Seq<u8>)
    requires
        is_gap(list, i, path),
        is_gap(list, j, path),
    ensures
        i == j,
{
    if i < j {
        path_order_is_total(list[i], path);
    } else if j < i {
        path_order_is_total(list[j], path);
    }
}

/// A path that is not in a sorted list has a place there.
proof fn lemma_some_gap(list: Seq<Seq<u8>>, path: Seq<u8>)
    requires
        ascending(list),
        !holds(list, path),
    ensures
        exists|i: int| is_gap(list, i, path),
    decreases list.len(),
{
    if list.len() == 0 {
        assert(is_gap(list, 0, path));
    } else {
        let rest = list.drop_last();
        assert forall|i: int| !found_at(rest, i, path) by {
            assert(!found_at(list, i, path));
        }
        assert(!found_at(list, list.len() - 1, path));
        path_order_is_total(list.last(), path);
        if path_less(list.last(), path) {
            assert forall|k: int| 0 <= k < list.len() implies path_less(
                #[trigger] list[k],
                path,
            ) by {
                if k < list.len() - 1 {
                    path_order_is_transitive(list[k], list.last(), path);
                }
            }
            assert(is_gap(list, list.len() as int, path));
        } else {
            lemma_some_gap(rest, path);
            let i = choose|i: int| is_gap(rest, i, path);
            assert forall|k: int| 0 <= k < i implies path_less(#[trigger] list[k], path) by {
                assert(rest[k] == list[k]);
            }
            assert forall|k: int| i <= k < list.len() implies path_less(
                path,
                #[trigger] list[k],
            ) by {
                if k < list.len() - 1 {
                    assert(rest[k] == list[k]);
                }
            }
            assert(is_gap(list, i, path));
        }
    }
}

/// Recording an item keeps the order and answers for that path alone.
pub proof fn put_records_one_path(tree: Seq<Item>, item: Item)
    requires
        ascending(paths_of(tree)),
    ensures
        ascending(paths_of(put(tree, item))),
        forall|q: Seq<u8>| #[trigger]
            lookup(put(tree, item), q) == if same_path(q, item.path) {
                Some(item.entry)
            } else {
                lookup(tree, q)
            },
{
    let list = paths_of(tree);
    let after = put(tree, item);
    let replaced = holds(list, item.path);
    let at = if replaced {
        choose|i: int| found_at(list, i, item.path)
    } else {
        choose|i: int| is_gap(list, i, item.path)
    };
    if replaced {
        assert(paths_of(after) =~= list);
    } else {
        lemma_some_gap(list, item.path);
        lemma_insert_ascending(list, at, item.path);
        assert(paths_of(after) =~= list.insert(at, item.path));
    }
    assert forall|q: Seq<u8>| #[trigger]
        lookup(after, q) == if same_path(q, item.path) {
            Some(item.entry)
        } else {
            lookup(tree, q)
        } by {
        if same_path(q, item.path) {
            lookup_at(after, at, q);
        } else {
            if lookup(tree, q) is Some {
                let i = lookup_is_somewhere(tree, q);
                let j = if replaced || i < at {
                    i
                } else {
                    i + 1
                };
                assert(after[j].path == tree[i].path);
                lookup_at(after, j, q);
            }
            if lookup(after, q) is Some {
                let j = lookup_is_somewhere(after, q);
                let i = if replaced || j < at {
                    j
                } else {
                    j - 1
                };
                assert(j != at);
                assert(after[j] == tree[i]);
                lookup_at(tree, i, q);
            }
        }
    }
}

/// Of several items for one path the last one counts.
pub proof fn put_all_keeps_the_last(list: Seq<Item>)
    ensures
        ascending(paths_of(put_all(list))),
        forall|q: Seq<u8>| #[trigger] lookup(put_all(list), q) == last_of(list, q),
    decreases list.len(),
{
    if list.len() == 0 {
        assert forall|q: Seq<u8>| #[trigger] lookup(put_all(list), q) == last_of(list, q) by {
            assert forall|i: int| !found_at(paths_of(put_all(list)), i, q) by {}
        }
    } else {
        put_all_keeps_the_last(list.drop_last());
        put_records_one_path(put_all(list.drop_last()), list.last());
    }
}

/// Each path of a tree that was put together from a list, in its exact
/// spelling, comes from the list.
pub proof fn put_all_takes_from_the_list(list: Seq<Item>, j: int) -> (k: int)
    requires
        0 <= j < put_all(list).len(),
    ensures
        0 <= k < list.len(),
        put_all(list)[j].path == list[k].path,
    decreases list.len(),
{
    let rest = list.drop_last();
    let tree = put_all(rest);
    let item = list.last();
    let names = paths_of(tree);
    put_all_keeps_the_last(rest);
    if holds(names, item.path) {
        put_all_takes_from_the_list(rest, j)
    } else {
        lemma_some_gap(names, item.path);
        let at = choose|i: int| is_gap(names, i, item.path);
        if j == at {
            list.len() - 1
        } else if j < at {
            put_all_takes_from_the_list(rest, j)
        } else {
            put_all_takes_from_the_list(rest, j - 1)
        }
    }
}

/// A set that gained a path holds it and what it held before.
pub proof fn with_path_adds_one(list: Seq<Seq<u8>>, path: Seq<u8>)
    requires
        ascending(list),
    ensures
        ascending(with_path(list, path)),
        forall|q: Seq<u8>| #[trigger]
            holds(with_path(list, path), q) == (holds(list, q) || same_path(q, path)),
        forall|q: Seq<u8>|
            with_path(list, path).contains(q) ==> list.contains(q) || q == path,
{
    let after = with_path(list, path);
    if !holds(list, path) {
        lemma_some_gap(list, path);
        let at = choose|i: int| is_gap(list, i, path);
        lemma_insert_ascending(list, at, path);
        assert forall|q: Seq<u8>| #[trigger]
            holds(after, q) == (holds(list, q) || same_path(q, path)) by {
            if holds(list, q) {
                let i = choose|i: int| found_at(list, i, q);
                assert(found_at(
                    after,
                    if i < at {
                        i
                    } else {
                        i + 1
                    },
                    q,
                ));
            }
            if same_path(q, path) {
                assert(found_at(after, at, q));
            }
            if holds(after, q) {
                let j = choose|j: int| found_at(after, j, q);
                if j != at {
                    assert(found_at(
                        list,
                        if j < at {
                            j
                        } else {
                            j - 1
                        },
                        q,
                    ));
                }
            }
        }
        assert forall|q: Seq<u8>| after.contains(q) implies list.contains(q) || q == path by {
            let j = choose|j: int| 0 <= j < after.len() && after[j] == q;
            if j < at {
                assert(list[j] == q);
            } else if j > at {
                assert(list[j - 1] == q);
            }
        }
    } else {
        let k = choose|k: int| found_at(list, k, path);
        assert forall|q: Seq<u8>| #[trigger]
            holds(after, q) == (holds(list, q) || same_path(q, path)) by {
            if same_path(q, path) {
                assert(found_at(list, k, q));
            }
        }
    }
}

/// A set that lost a path holds everything else that it held before.
pub proof fn without_path_drops_one(list: Seq<Seq<u8>>, path: Seq<u8>)
    requires
        ascending(list),
    ensures
        ascending(without_path(list, path)),
        forall|q: Seq<u8>| #[trigger]
            holds(without_path(list, path), q) == (holds(list, q) && !same_path(q, path)),
{
    let after = without_path(list, path);
    if holds(list, path) {
        let at = choose|i: int| found_at(list, i, path);
        assert forall|i: int, j: int|
            #![trigger after[i], after[j]]
            0 <= i < j < after.len() implies path_less(after[i], after[j]) by {
            let a = if i < at {
                i
            } else {
                i + 1
            };
            let b = if j < at {
                j
            } else {
                j + 1
            };
            assert(path_less(list[a], list[b]));
        }
        assert forall|q: Seq<u8>| #[trigger]
            holds(after, q) == (holds(list, q) && !same_path(q, path)) by {
            if holds(list, q) && !same_path(q, path) {
                let i = choose|i: int| found_at(list, i, q);
                assert(found_at(
                    after,
                    if i < at {
                        i
                    } else {
                        i - 1
                    },
                    q,
                ));
            }
            if holds(after, q) {
                let j = choose|j: int| found_at(after, j, q);
                let i = if j < at {
                    j
                } else {
                    j + 1
                };
                assert(found_at(list, i, q));
                if same_path(q, path) {
                    found_once(list, i, at, path);
                }
            }
        }
    } else {
        assert forall|q: Seq<u8>| #[trigger]
            holds(after, q) == (holds(list, q) && !same_path(q, path)) by {
            if holds(list, q) && same_path(q, path) {
                let i = choose|i: int| found_at(list, i, q);
                assert(found_at(list, i, path));
            }
        }
    }
}

/// Adding a new path and removing it again gives the set back.
pub proof fn removing_undoes_adding(list: Seq<Seq<u8>>, path: Seq<u8>)
    requires
        ascending(list),
        !holds(list, path),
    ensures
        without_path(with_path(list, path), path) == list,
{
    let more = with_path(list, path);
    lemma_some_gap(list, path);
    let at = choose|i: int| is_gap(list, i, path);
    with_path_adds_one(list, path);
    assert(found_at(more, at, path));
    let i = choose|i: int| found_at(more, i, path);
    found_once(more, at, i, path);
    assert(more.remove(at) =~= list);
}

/// A set made from a list holds the paths of the list.
pub proof fn with_paths_holds_the_list(list: Seq<Seq<u8>>)
    ensures
        ascending(with_paths(list)),
        forall|q: Seq<u8>| #[trigger] holds(with_paths(list), q) == holds(list, q),
    decreases list.len(),
{
    if list.len() == 0 {
        assert(with_paths(list) =~= list);
    } else {
        let rest = list.drop_last();
        with_paths_holds_the_list(rest);
        with_path_adds_one(with_paths(rest), list.last());
        assert forall|q: Seq<u8>| #[trigger] holds(with_paths(list), q) == holds(list, q) by {
            if holds(rest, q) {
                let i = choose|i: int| found_at(rest, i, q);
                assert(found_at(list, i, q));
            }
            if same_path(q, list.last()) {
                assert(found_at(list, list.len() - 1, q));
            }
            if holds(list, q) {
                let i = choose|i: int| found_at(list, i, q);
                if i < list.len() - 1 {
                    assert(found_at(rest, i, q));
                }
            }
        }
    }
}

/// The scanned entries of a directory tree, by path relative to its root.
#[derive(Debug)]
pub struct Tree {
    keys: Vec<UnixPath>,
    entries: Vec<FileEntry>,
}

impl View for Tree {
    type V = Seq<Item>;

    closed spec fn view(&self) -> Seq<Item> {
        Seq::new(
            self.keys@.len(),
            |i: int| Item { path: self.keys@[i]@, entry: self.entries@[i]@ },
        )
    }
}

impl Tree {
    /// Each path has an entry, and the paths are in ascending order.
    #[verifier::type_invariant]
    pub closed spec fn wf(self) -> bool {
        &&& self.keys@.len() == self.entries@.len()
        &&& ascending(raws(self.keys@))
    }

    /// The entries of a tree are in ascending order.
    pub proof fn is_sorted(self)
        requires
            self.wf(),
        ensures
            ascending(paths_of(self@)),
            self@.len() <= usize::MAX,
    {
        assert(self.keys.len() <= usize::MAX);
        assert(raws(self.keys@) =~= paths_of(self@));
    }

    /// A tree without entries.
    pub fn new() -> (tree: Tree)
        ensures
            tree@ == Seq::<Item>::empty(),
    {
        let tree = Tree { keys: Vec::new(), entries: Vec::new() };
        assert(tree@ =~= Seq::<Item>::empty());
        tree
    }

    /// How many entries there are.
    pub fn len(&self) -> (n: usize)
        ensures
            n == self@.len(),
    {
        self.keys.len()
    }

    /// True without entries.
    pub fn is_empty(&self) -> (empty: bool)
        ensures
            empty == (self@.len() == 0),
    {
        self.keys.len() == 0
    }

    /// The path at position `i`, in ascending order.
    pub fn path_at(&self, i: usize) -> (path: &UnixPath)
        requires
            i < self@.len(),
        ensures
            path@ == self@[i as int].path,
    {
        &self.keys[i]
    }

    /// The entry at position `i`, in ascending order of the paths.
    pub fn entry_at(&self, i: usize) -> (entry: &FileEntry)
        requires
            i < self@.len(),
        ensures
            entry@ == self@[i as int].entry,
    {
        proof {
            use_type_invariant(self);
        }
        &self.entries[i]
    }

    /// The entry for `path`.
    pub fn get(&self, path: &UnixPath) -> (entry: Option<&FileEntry>)
        ensures
            match entry {
                Some(e) => lookup(self@, path@) == Some(e@),
                None => lookup(self@, path@) is None,
            },
    {
        proof {
            use_type_invariant(self);
            assert(raws(self.keys@) =~= paths_of(self@));
        }
        let (at, found) = locate(&self.keys, path);
        if found {
            proof {
                lookup_at(self@, at as int, path@);
            }
            Some(&self.entries[at])
        } else {
            None
        }
    }

    /// Records `entry` for `path`, in place of what was there before.
    pub fn insert(&mut self, path: UnixPath, entry: FileEntry)
        ensures
            final(self)@ == put(old(self)@, Item { path: path@, entry: entry@ }),
            ascending(paths_of(final(self)@)),
    {
        proof {
            use_type_invariant(&*self);
            self.is_sorted();
        }
        let ghost before = self@;
        let ghost item = Item { path: path@, entry: entry@ };
        let mut spare = Tree { keys: Vec::new(), entries: Vec::new() };
        std::mem::swap(self, &mut spare);
        let Tree { mut keys, mut entries } = spare;
        let ghost keys0 = keys@;
        assert(raws(keys@) =~= paths_of(before));
        let (at, found) = locate(&keys, &path);
        if found {
            entries.set(at, entry);
        } else {
            keys.insert(at, path);
            entries.insert(at, entry);
            proof {
                lemma_insert_ascending(raws(keys0), at as int, item.path);
                assert(raws(keys@) =~= raws(keys0).insert(at as int, item.path));
            }
        }
        let after = Tree { keys, entries };
        proof {
            after.is_sorted();
            let list = paths_of(before);
            if found {
                let i = choose|i: int| found_at(list, i, item.path);
                found_once(list, at as int, i, item.path);
            } else {
                assert(is_gap(list, at as int, item.path));
                let i = choose|i: int| is_gap(list, i, item.path);
                lemma_one_gap(list, at as int, i, item.path);
            }
            assert(after@ =~= put(before, item));
        }
        *self = after;
    }

    /// The tree of these entries. Of two entries for one path the later one
    /// counts.
    pub fn from_entries(list: Vec<(UnixPath, FileEntry)>) -> (tree: Tree)
        ensures
            tree@ == put_all(items(list@)),
            ascending(paths_of(tree@)),
    {
        let mut tree = Tree::new();
        let ghost all = items(list@);
        let ghost n = list@.len();
        proof {
            assert(all.take(0) =~= Seq::<Item>::empty());
        }
        for pair in it: list
            invariant
                all == items(it.seq()),
                n == it.seq().len(),
                tree@ == put_all(all.take(it.index() as int)),
                ascending(paths_of(tree@)),
        {
            let ghost k = it.index() as int;
            assert(all.take(k + 1).drop_last() =~= all.take(k));
            assert(all.take(k + 1).last() == all[k]);
            tree.insert(pair.0, pair.1);
        }
        assert(all.take(n as int) =~= all);
        tree
    }
}

/// A set of paths.
#[derive(Debug)]
pub struct PathSet {
    keys: Vec<UnixPath>,
}

impl View for PathSet {
    type V = Seq<Seq<u8>>;

    /// The members, in ascending order.
    closed spec fn view(&self) -> Seq<Seq<u8>> {
        raws(self.keys@)
    }
}

/// The sorted list with `path` among its members.
pub open spec fn with_path(list: Seq<Seq<u8>>, path: Seq<u8>) -> Seq<Seq<u8>> {
    if holds(list, path) {
        list
    } else {
        list.insert(choose|i: int| is_gap(list, i, path), path)
    }
}

/// The sorted list without `path` among its members.
pub open spec fn without_path(list: Seq<Seq<u8>>, path: Seq<u8>) -> Seq<Seq<u8>> {
    if holds(list, path) {
        list.remove(choose|i: int| found_at(list, i, path))
    } else {
        list
    }
}

/// The members are those of the list, each once, in ascending order.
pub open spec fn with_paths(list: Seq<Seq<u8>>) -> Seq<Seq<u8>>
    decreases list.len(),
{
    if list.len() == 0 {
        Seq::empty()
    } else {
        with_path(with_paths(list.drop_last()), list.last())
    }
}

impl PathSet {
    /// The members are in ascending order.
    #[verifier::type_invariant]
    pub closed spec fn wf(self) -> bool {
        ascending(raws(self.keys@))
    }

    /// The members of a set are in ascending order.
    pub proof fn is_sorted(self)
        requires
            self.wf(),
        ensures
            ascending(self@),
    {
    }

    /// The empty set.
    pub fn new() -> (set: PathSet)
        ensures
            set@ == Seq::<Seq<u8>>::empty(),
    {
        let set = PathSet { keys: Vec::new() };
        assert(set@ =~= Seq::<Seq<u8>>::empty());
        set
    }

    /// How many members there are.
    pub fn len(&self) -> (n: usize)
        ensures
            n == self@.len(),
    {
        self.keys.len()
    }

    /// True without members.
    pub fn is_empty(&self) -> (empty: bool)
        ensures
            empty == (self@.len() == 0),
    {
        self.keys.len() == 0
    }

    /// The member at position `i`, in ascending order.
    pub fn path_at(&self, i: usize) -> (path: &UnixPath)
        requires
            i < self@.len(),
        ensures
            path@ == self@[i as int],
    {
        &self.keys[i]
    }

    /// True when `path` is a member, in some spelling.
    pub fn contains(&self, path: &UnixPath) -> (there: bool)
        ensures
            there == holds(self@, path@),
    {
        proof {
            use_type_invariant(self);
        }
        let (_, found) = locate(&self.keys, path);
        found
    }

    /// Makes `path` a member. One that is there already keeps its spelling.
    pub fn insert(&mut self, path: UnixPath)
        ensures
            final(self)@ == with_path(old(self)@, path@),
            ascending(final(self)@),
    {
        proof {
            use_type_invariant(&*self);
        }
        let ghost raw = path@;
        let mut keys: Vec<UnixPath> = Vec::new();
        std::mem::swap(&mut self.keys, &mut keys);
        let ghost before = raws(keys@);
        let (at, found) = locate(&keys, &path);
        if !found {
            keys.insert(at, path);
            proof {
                lemma_insert_ascending(before, at as int, raw);
                assert(raws(keys@) =~= before.insert(at as int, raw));
                assert(is_gap(before, at as int, raw));
                let i = choose|i: int| is_gap(before, i, raw);
                lemma_one_gap(before, at as int, i, raw);
            }
        }
        self.keys = keys;
    }

    /// Removes `path` from the members.
    pub fn remove(&mut self, path: &UnixPath)
        ensures
            final(self)@ == without_path(old(self)@, path@),
            ascending(final(self)@),
    {
        proof {
            use_type_invariant(&*self);
        }
        let ghost raw = path@;
        let mut keys: Vec<UnixPath> = Vec::new();
        std::mem::swap(&mut self.keys, &mut keys);
        let ghost before = raws(keys@);
        let (at, found) = locate(&keys, path);
        if found {
            let _ = keys.remove(at);
            proof {
                assert(raws(keys@) =~= before.remove(at as int));
                let i = choose|i: int| found_at(before, i, raw);
                found_once(before, at as int, i, raw);
                assert forall|i: int, j: int|
                    #![trigger raws(keys@)[i], raws(keys@)[j]]
                    0 <= i < j < raws(keys@).len() implies path_less(
                    raws(keys@)[i],
                    raws(keys@)[j],
                ) by {
                    let a = if i < at {
                        i
                    } else {
                        i + 1
                    };
                    let b = if j < at {
                        j
                    } else {
                        j + 1
                    };
                    assert(path_less(before[a], before[b]));
                }
            }
        }
        self.keys = keys;
    }
}

} // verus!
