//! What a plan does to a disk, and that it makes the target a mirror of the
//! source.
//!
//! A disk is modelled as what stands at each place, a place being the
//! components of a relative path. The actions of a plan are given a meaning on
//! this model; the laws at the end say what the target looks like once a plan
//! has been carried out.
//!
//! A scan does not record all that stands on a disk: excluded entries and
//! special files are hidden. Excluded entries are moreover to be spared, so that
//! nothing that holds one is removed.

use crate::agreement::{
    actions_spell_paths_as_recorded, agree, empty_plan_means_agreement, named, phase_list,
    phase_step, settled,
};
use crate::digest::blake3_hash;
use crate::entry::{same_type, EntryView, KindView};
use crate::losses::{gone, gone_anyway, is_gone};
use crate::path::{
    depth, empty_path_has_no_parts, is_rooted, parent_drops_last_part, parent_of, parts,
    root_comes_first, same_path, PartView,
};
use crate::picks::{
    all_different, deep_first, deep_first_orders, filter_keeps_different, filter_members,
    shallow_first, shallow_first_orders, sorted_items_differ,
};
use crate::plan::{
    blocked, changed, conflicts, copies, dir_in_sync, dir_metas, gap, holds_child, is_above,
    is_parent, is_stale, lies_under, link_in_sync, matched, new_dirs, new_links, planned, render,
    rendered, stale_dirs, stale_files, stays, unchanged_files, ActionView, Step,
};
use crate::session::{deletes, held_back_plans_delete_nothing_extraneous, without_deletes};
use crate::tree::{ascending, holds, lookup, lookup_at, lookup_is_somewhere, paths_of, Item};
use vstd::prelude::*;

verus! {

/// What stands at one place of a disk. The mtime is unknown where something
/// inside a directory changed after it was last set, the mode where the system
/// picks it.
pub struct Node {
    pub kind: KindView,
    pub size: u64,
    pub mtime: Option<i64>,
    pub mode: Option<u32>,
    pub data: Seq<u8>,
}

/// What stands where below one root directory.
pub type Disk = spec_fn(Seq<PartView>) -> Option<Node>;

/// Some of the places below a root directory.
pub type Places = spec_fn(Seq<PartView>) -> bool;

/// `place` is `top` or lies below it.
pub open spec fn below(top: Seq<PartView>, place: Seq<PartView>) -> bool {
    top.len() <= place.len() && place.take(top.len() as int) == top
}

/// `dir` directly holds `place`.
pub open spec fn directly_holds(dir: Seq<PartView>, place: Seq<PartView>) -> bool {
    place.len() > 0 && dir == place.drop_last()
}

/// A directory stands there.
pub open spec fn is_dir_at(disk: Disk, place: Seq<PartView>) -> bool {
    disk(place) matches Some(n) && n.kind is Dir
}

/// Something can be created there: the directory that is to hold it exists.
pub open spec fn has_room(disk: Disk, place: Seq<PartView>) -> bool {
    place.len() > 0 && (place.len() == 1 || is_dir_at(disk, place.drop_last()))
}

/// A node whose mtime has moved, if it is a directory.
pub open spec fn moved(node: Option<Node>) -> Option<Node> {
    match node {
        Some(n) => if n.kind is Dir {
            Some(Node { kind: n.kind, size: n.size, mtime: None, mode: n.mode, data: n.data })
        } else {
            node
        },
        None => None,
    }
}

/// A directory as it is created: its mode is up to the system, and its mtime is
/// the time of its creation.
pub open spec fn fresh_dir() -> Node {
    Node { kind: KindView::Dir, size: 0, mtime: None, mode: None, data: Seq::empty() }
}

/// A symlink as it is created.
pub open spec fn fresh_link(target: Seq<u8>, mtime: i64) -> Node {
    Node {
        kind: KindView::Symlink(target),
        size: 0,
        mtime: Some(mtime),
        mode: None,
        data: Seq::empty(),
    }
}

/// Something stands at a spared place that is `place` or lies below it.
pub open spec fn holds_spared(disk: Disk, spared: Places, place: Seq<PartView>) -> bool {
    exists|q: Seq<PartView>| #[trigger] spared(q) && below(place, q) && disk(q) is Some
}

/// The action can be carried out on this disk, with the source `from`. Whatever
/// would remove something at a spared place is refused.
pub open spec fn works(disk: Disk, from: Disk, spared: Places, action: ActionView) -> bool {
    match action {
        ActionView::RemoveConflict(rel) => disk(parts(rel)) is Some && !holds_spared(
            disk,
            spared,
            parts(rel),
        ),
        ActionView::CreateDir(rel) => has_room(disk, parts(rel)) && (disk(parts(rel)) is None
            || is_dir_at(disk, parts(rel))),
        ActionView::Copy { rel, size } => {
            &&& from(parts(rel)) matches Some(n) && n.kind is File
            &&& has_room(disk, parts(rel))
            &&& !is_dir_at(disk, parts(rel))
        },
        ActionView::CreateSymlink { rel, target, mtime } => has_room(disk, parts(rel))
            && !holds_spared(disk, spared, parts(rel)),
        ActionView::DeleteFile(rel) => disk(parts(rel)) is Some && !is_dir_at(disk, parts(rel)),
        ActionView::DeleteDir(rel) => is_dir_at(disk, parts(rel)),
        ActionView::SetDirMeta { rel, mtime, mode } => is_dir_at(disk, parts(rel)),
        ActionView::SetFileMeta { rel, mode } => disk(parts(rel)) matches Some(n)
            && n.kind is File,
    }
}

/// The node with another mode.
pub open spec fn with_mode(node: Node, mode: u32) -> Node {
    Node {
        kind: node.kind,
        size: node.size,
        mtime: node.mtime,
        mode: Some(mode),
        data: node.data,
    }
}

/// The node with another mtime and mode.
pub open spec fn with_meta(node: Node, mtime: i64, mode: u32) -> Node {
    Node {
        kind: node.kind,
        size: node.size,
        mtime: Some(mtime),
        mode: Some(mode),
        data: node.data,
    }
}

/// What stands at a place the action does not name, once `rel` was created,
/// replaced or removed.
pub open spec fn elsewhere(disk: Disk, rel: Seq<u8>, place: Seq<PartView>) -> Option<Node> {
    if directly_holds(place, parts(rel)) {
        moved(disk(place))
    } else {
        disk(place)
    }
}

/// The disk once the action has been carried out, with the source `from`. A
/// directory that is to go, with all that it holds, stays if it holds anything
/// at a spared place.
pub open spec fn after(disk: Disk, from: Disk, spared: Places, action: ActionView) -> Disk {
    match action {
        ActionView::RemoveConflict(rel) => |place: Seq<PartView>|
            if below(parts(rel), place) {
                None
            } else {
                elsewhere(disk, rel, place)
            },
        ActionView::CreateDir(rel) => |place: Seq<PartView>|
            if is_dir_at(disk, parts(rel)) {
                disk(place)
            } else if place == parts(rel) {
                Some(fresh_dir())
            } else {
                elsewhere(disk, rel, place)
            },
        ActionView::Copy { rel, size } => |place: Seq<PartView>|
            if place == parts(rel) {
                from(place)
            } else {
                elsewhere(disk, rel, place)
            },
        ActionView::CreateSymlink { rel, target, mtime } => |place: Seq<PartView>|
            if place == parts(rel) {
                Some(fresh_link(target, mtime))
            } else if below(parts(rel), place) {
                None
            } else {
                elsewhere(disk, rel, place)
            },
        ActionView::DeleteFile(rel) => |place: Seq<PartView>|
            if place == parts(rel) {
                None
            } else {
                elsewhere(disk, rel, place)
            },
        ActionView::DeleteDir(rel) => |place: Seq<PartView>|
            if holds_spared(disk, spared, parts(rel)) {
                disk(place)
            } else if below(parts(rel), place) {
                None
            } else {
                elsewhere(disk, rel, place)
            },
        ActionView::SetDirMeta { rel, mtime, mode } => |place: Seq<PartView>|
            if place == parts(rel) {
                Some(with_meta(disk(place)->0, mtime, mode))
            } else {
                disk(place)
            },
        ActionView::SetFileMeta { rel, mode } => |place: Seq<PartView>|
            if place == parts(rel) {
                Some(with_mode(disk(place)->0, mode))
            } else {
                disk(place)
            },
    }
}

/// The disk once the actions have been carried out one after the other, or
/// nothing where one of them cannot be carried out.
pub open spec fn run(
    disk: Disk,
    from: Disk,
    spared: Places,
    actions: Seq<ActionView>,
) -> Option<Disk>
    decreases actions.len(),
{
    if actions.len() == 0 {
        Some(disk)
    } else {
        match run(disk, from, spared, actions.drop_last()) {
            Some(d) => if works(d, from, spared, actions.last()) {
                Some(after(d, from, spared, actions.last()))
            } else {
                None
            },
            None => None,
        }
    }
}

/// Running two lists is running the one and then the other.
proof fn lemma_run_sum(
    disk: Disk,
    from: Disk,
    spared: Places,
    a: Seq<ActionView>,
    b: Seq<ActionView>,
)
    ensures
        run(disk, from, spared, a + b) == match run(disk, from, spared, a) {
            Some(d) => run(d, from, spared, b),
            None => None,
        },
    decreases b.len(),
{
    if b.len() == 0 {
        assert(a + b =~= a);
    } else {
        assert((a + b).drop_last() =~= a + b.drop_last());
        lemma_run_sum(disk, from, spared, a, b.drop_last());
    }
}

// ---------------------------------------------------------------------------
// A list of actions of one kind
// ---------------------------------------------------------------------------

/// Entry `j` of the list stands at `place`.
pub open spec fn stands_at(list: Seq<Item>, j: int, place: Seq<PartView>) -> bool {
    0 <= j < list.len() && parts(list[j].path) == place
}

/// Some entry of the list stands at `place`.
pub open spec fn listed(list: Seq<Item>, place: Seq<PartView>) -> bool {
    exists|j: int| stands_at(list, j, place)
}

/// The entry of the list that stands at `place`.
pub open spec fn item_at(list: Seq<Item>, place: Seq<PartView>) -> Item {
    list[choose|j: int| stands_at(list, j, place)]
}

/// `place` is that of an entry of the list or lies below one.
pub open spec fn covered(list: Seq<Item>, place: Seq<PartView>) -> bool {
    exists|j: int| 0 <= j < list.len() && below(parts((#[trigger] list[j]).path), place)
}

/// `place` directly holds an entry of the list.
pub open spec fn holds_listed(list: Seq<Item>, place: Seq<PartView>) -> bool {
    exists|j: int| 0 <= j < list.len() && directly_holds(place, parts((#[trigger] list[j]).path))
}

/// The step removes all that lies below the place that it names.
spec fn clears(step: Step) -> bool {
    step is Conflict || step is DropDir || step is Link
}

/// The step changes what its directory holds.
spec fn stirs(step: Step) -> bool {
    !(step is Mode || step is DirMeta)
}

/// What a step leaves at the place that it names.
spec fn leaves(step: Step, from: Disk, item: Item, old_node: Option<Node>) -> Option<Node> {
    match step {
        Step::Conflict => None,
        Step::MakeDir => Some(fresh_dir()),
        Step::Copy => from(parts(item.path)),
        Step::Link => Some(fresh_link(item.entry.kind->Symlink_0, item.entry.mtime)),
        Step::Mode => Some(with_mode(old_node->0, item.entry.mode)),
        Step::DropFile => None,
        Step::DropDir => None,
        Step::DirMeta => Some(with_meta(old_node->0, item.entry.mtime, item.entry.mode)),
    }
}

/// The disk once a step has been taken for each entry of the list.
spec fn outcome(disk: Disk, from: Disk, list: Seq<Item>, step: Step) -> Disk {
    |place: Seq<PartView>|
        if listed(list, place) {
            leaves(step, from, item_at(list, place), disk(place))
        } else if clears(step) && covered(list, place) {
            None
        } else if stirs(step) && holds_listed(list, place) {
            moved(disk(place))
        } else {
            disk(place)
        }
}

/// In a list of different entries a place is that of one entry only.
proof fn lemma_item_at(list: Seq<Item>, j: int, place: Seq<PartView>)
    requires
        all_different(list),
        stands_at(list, j, place),
    ensures
        item_at(list, place) == list[j],
        listed(list, place),
{
    let k = choose|k: int| stands_at(list, k, place);
    assert(stands_at(list, k, place));
    if k < j {
        assert(!same_path(list[k].path, list[j].path));
    } else if j < k {
        assert(!same_path(list[j].path, list[k].path));
    }
}

/// The three questions about a list with one entry more.
proof fn lemma_one_more(list: Seq<Item>, n: int, place: Seq<PartView>)
    requires
        0 <= n < list.len(),
    ensures
        listed(list.take(n + 1), place) == (listed(list.take(n), place) || parts(list[n].path)
            == place),
        covered(list.take(n + 1), place) == (covered(list.take(n), place) || below(
            parts(list[n].path),
            place,
        )),
        holds_listed(list.take(n + 1), place) == (holds_listed(list.take(n), place)
            || directly_holds(place, parts(list[n].path))),
{
    let a = list.take(n);
    let b = list.take(n + 1);
    assert(forall|j: int| 0 <= j < n ==> a[j] == b[j]);
    assert(b[n] == list[n]);
    if listed(a, place) {
        let j = choose|j: int| stands_at(a, j, place);
        assert(stands_at(b, j, place));
    }
    if parts(list[n].path) == place {
        assert(stands_at(b, n, place));
    }
    if listed(b, place) && parts(list[n].path) != place {
        let j = choose|j: int| stands_at(b, j, place);
        assert(stands_at(a, j, place));
    }
    if covered(b, place) {
        let j = choose|j: int| 0 <= j < b.len() && below(parts((#[trigger] b[j]).path), place);
        if j < n {
            assert(below(parts(a[j].path), place));
        }
    }
    if covered(a, place) {
        let j = choose|j: int| 0 <= j < a.len() && below(parts((#[trigger] a[j]).path), place);
        assert(below(parts(b[j].path), place));
    }
    if holds_listed(b, place) {
        let j = choose|j: int|
            0 <= j < b.len() && directly_holds(place, parts((#[trigger] b[j]).path));
        if j < n {
            assert(directly_holds(place, parts(a[j].path)));
        }
    }
    if holds_listed(a, place) {
        let j = choose|j: int|
            0 <= j < a.len() && directly_holds(place, parts((#[trigger] a[j]).path));
        assert(directly_holds(place, parts(b[j].path)));
    }
}

/// What one step more changes.
proof fn lemma_step(
    disk: Disk,
    from: Disk,
    spared: Places,
    list: Seq<Item>,
    step: Step,
    n: int,
)
    requires
        all_different(list),
        0 <= n < list.len(),
        step is Copy ==> forall|i: int|
            0 <= i < list.len() ==> {
                &&& (#[trigger] from(parts(list[i].path))) is Some
                &&& !(from(parts(list[i].path))->0.kind is Dir)
            },
        step is MakeDir ==> forall|i: int|
            0 <= i < list.len() ==> disk(parts((#[trigger] list[i]).path)) is None,
        step is Link ==> forall|i: int, j: int|
            #![trigger list[i], list[j]]
            0 <= i < list.len() && 0 <= j < list.len() && i != j ==> !below(
                parts(list[i].path),
                parts(list[j].path),
            ),
        step is DropDir ==> !holds_spared(
            outcome(disk, from, list.take(n), step),
            spared,
            parts(list[n].path),
        ),
    ensures
        after(
            outcome(disk, from, list.take(n), step),
            from,
            spared,
            render(list[n], step),
        ) == outcome(disk, from, list.take(n + 1), step),
{
    let a = list.take(n);
    let b = list.take(n + 1);
    let rel = list[n].path;
    let key = parts(rel);
    let d = outcome(disk, from, a, step);
    let e = outcome(disk, from, b, step);
    let f = after(d, from, spared, render(list[n], step));
    lemma_one_more(list, n, key);
    assert(!listed(a, key)) by {
        if listed(a, key) {
            let j = choose|j: int| stands_at(a, j, key);
            assert(!same_path(list[j].path, list[n].path));
        }
    }
    assert(all_different(b));
    assert forall|place: Seq<PartView>| #[trigger] f(place) == e(place) by {
        lemma_one_more(list, n, place);
        if place == key {
            lemma_item_at(b, n, place);
            assert(key.take(key.len() as int) =~= key);
            assert(!directly_holds(key, key)) by {
                if directly_holds(key, key) {
                    assert(key.drop_last().len() == key.len() - 1);
                }
            }
        } else if listed(a, place) {
            let j = choose|j: int| stands_at(a, j, place);
            assert(stands_at(b, j, place));
            assert(all_different(a));
            lemma_item_at(a, j, place);
            lemma_item_at(b, j, place);
            assert(list[j] == a[j]);
            assert(a[j].path == list[j].path);
            if step is Copy {
                assert(from(parts(list[j].path)) is Some);
            }
        }
    }
    assert(f =~= e);
}

/// A list of steps that all work leads to their outcome.
proof fn lemma_phase(
    disk: Disk,
    from: Disk,
    spared: Places,
    list: Seq<Item>,
    step: Step,
    n: int,
)
    requires
        all_different(list),
        !(step is DropDir),
        0 <= n <= list.len(),
        step is Copy ==> forall|i: int|
            0 <= i < list.len() ==> {
                &&& (#[trigger] from(parts(list[i].path))) is Some
                &&& !(from(parts(list[i].path))->0.kind is Dir)
            },
        step is MakeDir ==> forall|i: int|
            0 <= i < list.len() ==> disk(parts((#[trigger] list[i]).path)) is None,
        step is Link ==> forall|i: int, j: int|
            #![trigger list[i], list[j]]
            0 <= i < list.len() && 0 <= j < list.len() && i != j ==> !below(
                parts(list[i].path),
                parts(list[j].path),
            ),
        forall|i: int|
            0 <= i < list.len() ==> works(
                outcome(disk, from, #[trigger] list.take(i), step),
                from,
                spared,
                render(list[i], step),
            ),
    ensures
        run(disk, from, spared, rendered(list.take(n), step)) == Some(
            outcome(disk, from, list.take(n), step),
        ),
    decreases n,
{
    let acts = rendered(list.take(n), step);
    if n == 0 {
        let e = outcome(disk, from, list.take(0), step);
        assert forall|place: Seq<PartView>| #[trigger] e(place) == disk(place) by {
            assert(!listed(list.take(0), place));
        }
        assert(e =~= disk);
    } else {
        lemma_phase(disk, from, spared, list, step, n - 1);
        lemma_step(disk, from, spared, list, step, n - 1);
        assert(acts.drop_last() =~= rendered(list.take(n - 1), step));
        assert(acts.last() == render(list[n - 1], step));
        assert(works(
            outcome(disk, from, list.take(n - 1), step),
            from,
            spared,
            render(list[n - 1], step),
        ));
    }
}

// ---------------------------------------------------------------------------
// Trees and disks
// ---------------------------------------------------------------------------

/// The node is what a scan records as `entry`.
pub open spec fn shows(node: Option<Node>, entry: EntryView) -> bool {
    match node {
        Some(n) => {
            &&& n.kind == entry.kind
            &&& n.size == entry.size
            &&& n.mtime == Some(entry.mtime)
            &&& n.mode == Some(entry.mode)
        },
        None => false,
    }
}

/// What the tree records stands on the disk.
pub open spec fn records(disk: Disk, tree: Seq<Item>) -> bool {
    forall|i: int|
        0 <= i < tree.len() ==> shows(disk(parts((#[trigger] tree[i]).path)), tree[i].entry)
}

/// The tree holds none of the hidden places.
pub open spec fn avoids(tree: Seq<Item>, hidden: Places) -> bool {
    forall|i: int| 0 <= i < tree.len() ==> !hidden(parts((#[trigger] tree[i]).path))
}

/// The tree records all that stands on the disk, but for the hidden places.
pub open spec fn is_scan(disk: Disk, tree: Seq<Item>, hidden: Places) -> bool {
    &&& records(disk, tree)
    &&& avoids(tree, hidden)
    &&& forall|place: Seq<PartView>|
        (#[trigger] disk(place)) is Some && !hidden(place) ==> listed(tree, place)
}

/// Whatever stands on the disk stands in the root or in a directory.
pub open spec fn grounded(disk: Disk) -> bool {
    forall|place: Seq<PartView>|
        (#[trigger] disk(place)) is Some && place.len() > 1 ==> is_dir_at(disk, place.drop_last())
}

/// The tree records a directory at `place`.
pub open spec fn dir_listed(tree: Seq<Item>, place: Seq<PartView>) -> bool {
    exists|j: int| #[trigger] stands_at(tree, j, place) && tree[j].entry.kind is Dir
}

/// Paths are relative, and each entry lies in the root or in a directory of the
/// tree.
pub open spec fn nested(tree: Seq<Item>) -> bool {
    forall|i: int|
        0 <= i < tree.len() ==> {
            &&& !is_rooted((#[trigger] tree[i]).path)
            &&& depth(tree[i].path) > 0
            &&& depth(tree[i].path) > 1 ==> dir_listed(tree, parts(tree[i].path).drop_last())
        }
}

/// No conflict holds anything at a spared place.
pub open spec fn conflicts_are_clear(
    src: Seq<Item>,
    dst: Seq<Item>,
    to: Disk,
    spared: Places,
) -> bool {
    forall|place: Seq<PartView>|
        (#[trigger] spared(place)) && to(place) is Some ==> !covered(conflicts(src, dst), place)
}

/// Looking up a path in the tree is looking at its place on the disk.
proof fn lemma_lookup(disk: Disk, tree: Seq<Item>, path: Seq<u8>)
    requires
        ascending(paths_of(tree)),
        records(disk, tree),
    ensures
        lookup(tree, path) is Some <==> listed(tree, parts(path)),
        lookup(tree, path) matches Some(e) ==> shows(disk(parts(path)), e) && e == item_at(
            tree,
            parts(path),
        ).entry,
{
    let place = parts(path);
    sorted_items_differ(tree);
    if lookup(tree, path) is Some {
        let i = lookup_is_somewhere(tree, path);
        assert(stands_at(tree, i, place));
        lemma_item_at(tree, i, place);
        assert(shows(disk(parts(tree[i].path)), tree[i].entry));
    }
    if listed(tree, place) {
        let i = choose|i: int| stands_at(tree, i, place);
        assert(shows(disk(parts(tree[i].path)), tree[i].entry));
        lookup_at(tree, i, path);
    }
}

/// Every directory on the way to an entry is in the tree.
proof fn lemma_dirs_above(tree: Seq<Item>, place: Seq<PartView>, m: int)
    requires
        nested(tree),
        listed(tree, place),
        0 < m < place.len(),
    ensures
        dir_listed(tree, place.take(m)),
    decreases place.len() - m,
{
    if m + 1 < place.len() {
        lemma_dirs_above(tree, place, m + 1);
        let j = choose|j: int|
            #[trigger] stands_at(tree, j, place.take(m + 1)) && tree[j].entry.kind is Dir;
        assert(place.take(m + 1).drop_last() =~= place.take(m));
    } else {
        let j = choose|j: int| stands_at(tree, j, place);
        assert(place.drop_last() =~= place.take(m));
    }
}

/// As [`lemma_dirs_above`], for the entry that stands there.
proof fn lemma_above_is_dir(tree: Seq<Item>, top: Seq<PartView>, place: Seq<PartView>)
    requires
        all_different(tree),
        nested(tree),
        listed(tree, place),
        top.len() > 0,
        top != place,
        below(top, place),
    ensures
        listed(tree, top),
        item_at(tree, top).entry.kind is Dir,
{
    if top.len() == place.len() {
        assert(place.take(top.len() as int) =~= place);
    }
    lemma_dirs_above(tree, place, top.len() as int);
    let j = choose|j: int| #[trigger] stands_at(tree, j, top) && tree[j].entry.kind is Dir;
    lemma_item_at(tree, j, top);
}

/// An entry of the tree passes a choice where its place is listed.
proof fn lemma_listed_filter(tree: Seq<Item>, p: spec_fn(Item) -> bool, place: Seq<PartView>)
    requires
        all_different(tree),
    ensures
        all_different(tree.filter(p)),
        listed(tree.filter(p), place) <==> listed(tree, place) && p(item_at(tree, place)),
        listed(tree.filter(p), place) ==> item_at(tree.filter(p), place) == item_at(tree, place),
{
    let out = tree.filter(p);
    filter_keeps_different(tree, p);
    filter_members(tree, p);
    if listed(out, place) {
        let j = choose|j: int| stands_at(out, j, place);
        assert(out.contains(out[j]));
        let i = choose|i: int| 0 <= i < tree.len() && tree[i] == out[j];
        assert(stands_at(tree, i, place));
        lemma_item_at(tree, i, place);
        lemma_item_at(out, j, place);
    }
    if listed(tree, place) && p(item_at(tree, place)) {
        let i = choose|i: int| stands_at(tree, i, place);
        assert(out.contains(tree[i]));
        let j = choose|j: int| 0 <= j < out.len() && out[j] == tree[i];
        assert(stands_at(out, j, place));
    }
}

/// Reordering a list changes none of the answers about it.
proof fn lemma_reordered(a: Seq<Item>, b: Seq<Item>, place: Seq<PartView>)
    requires
        all_different(a),
        all_different(b),
        forall|x: Item| #[trigger] a.contains(x) <==> b.contains(x),
    ensures
        listed(a, place) == listed(b, place),
        listed(a, place) ==> item_at(a, place) == item_at(b, place),
        covered(a, place) == covered(b, place),
        holds_listed(a, place) == holds_listed(b, place),
{
    lemma_reordered_one_way(a, b, place);
    lemma_reordered_one_way(b, a, place);
}

proof fn lemma_reordered_one_way(a: Seq<Item>, b: Seq<Item>, place: Seq<PartView>)
    requires
        all_different(a),
        all_different(b),
        forall|x: Item| #[trigger] a.contains(x) <==> b.contains(x),
    ensures
        listed(a, place) ==> listed(b, place) && item_at(a, place) == item_at(b, place),
        covered(a, place) ==> covered(b, place),
        holds_listed(a, place) ==> holds_listed(b, place),
{
    if listed(a, place) {
        let j = choose|j: int| stands_at(a, j, place);
        assert(a.contains(a[j]));
        let i = choose|i: int| 0 <= i < b.len() && b[i] == a[j];
        assert(stands_at(b, i, place));
        lemma_item_at(a, j, place);
        lemma_item_at(b, i, place);
    }
    if covered(a, place) {
        let j = choose|j: int| 0 <= j < a.len() && below(parts((#[trigger] a[j]).path), place);
        assert(a.contains(a[j]));
        let i = choose|i: int| 0 <= i < b.len() && b[i] == a[j];
        assert(below(parts(b[i].path), place));
    }
    if holds_listed(a, place) {
        let j = choose|j: int|
            0 <= j < a.len() && directly_holds(place, parts((#[trigger] a[j]).path));
        assert(a.contains(a[j]));
        let i = choose|i: int| 0 <= i < b.len() && b[i] == a[j];
        assert(directly_holds(place, parts(b[i].path)));
    }
}

// ---------------------------------------------------------------------------
// The phases of a plan
// ---------------------------------------------------------------------------

/// Two scanned trees with the disks that they were read from.
struct Job {
    src: Seq<Item>,
    dst: Seq<Item>,
    tol: i64,
    forced: Seq<Seq<u8>>,
    from: Disk,
    to: Disk,
    hidden: Places,
    spared: Places,
    /// Deletions of extraneous entries are held back.
    hold: bool,
}

impl Job {
    spec fn valid(self) -> bool {
        &&& ascending(paths_of(self.src))
        &&& ascending(paths_of(self.dst))
        &&& nested(self.src)
        &&& nested(self.dst)
        &&& records(self.from, self.src)
        &&& avoids(self.src, self.hidden)
        &&& is_scan(self.to, self.dst, self.hidden)
        &&& grounded(self.to)
        &&& forall|place: Seq<PartView>| #[trigger] (self.spared)(place) ==> (self.hidden)(place)
        &&& conflicts_are_clear(self.src, self.dst, self.to, self.spared)
    }

    /// The actions.
    spec fn plan(self) -> Seq<ActionView> {
        let all = planned(self.src, self.dst, self.tol, self.forced);
        if self.hold {
            without_deletes(all)
        } else {
            all
        }
    }

    /// The entries that phase `n` takes up.
    spec fn all(self, n: int) -> Seq<Item> {
        if self.hold && (n == 5 || n == 6) {
            Seq::empty()
        } else {
            phase_list(self.src, self.dst, self.tol, self.forced, n)
        }
    }

    /// The entry holds nothing that is to be spared.
    spec fn is_clear(self, i: Item) -> bool {
        !holds_spared(self.to, self.spared, parts(i.path))
    }

    /// The entries that phase `n` changes: directories that hold something to
    /// be spared are not deleted.
    spec fn list(self, n: int) -> Seq<Item> {
        if n == 6 {
            self.all(6).filter(|i: Item| self.is_clear(i))
        } else {
            self.all(n)
        }
    }

    /// The step that phase `n` takes.
    spec fn step(self, n: int) -> Step {
        phase_step(n)
    }

    /// The tree that the entries of phase `n` come from.
    spec fn tree(self, n: int) -> Seq<Item> {
        if n == 5 || n == 6 {
            self.dst
        } else {
            self.src
        }
    }

    /// An entry of that tree takes part in phase `n`.
    spec fn wants(self, n: int, i: Item) -> bool {
        let d = lookup(self.dst, i.path);
        let f = holds(self.forced, i.path);
        if n == 0 {
            blocked(i.entry, d)
        } else if n == 1 {
            i.entry.kind is Dir && !matched(i.entry, d)
        } else if n == 2 {
            i.entry.kind is File && !stays(i.entry, d, self.tol, f)
        } else if n == 3 {
            i.entry.kind is Symlink && !link_in_sync(i.entry, d, self.tol)
        } else if n == 4 {
            stays(i.entry, d, self.tol, f) && i.entry.mode != d->0.mode
        } else if n == 5 {
            is_stale(i, self.src, self.dst) && !(i.entry.kind is Dir) && !self.hold
        } else if n == 6 {
            is_stale(i, self.src, self.dst) && i.entry.kind is Dir && !self.hold && self.is_clear(i)
        } else {
            i.entry.kind is Dir && (!dir_in_sync(i.entry, d, self.tol) || holds_child(
                changed(self.src, self.dst, self.tol, self.forced),
                i.path,
            ))
        }
    }

    /// The target once the first `n` phases are over.
    spec fn stage(self, n: int) -> Disk
        decreases n,
    {
        if n <= 0 {
            self.to
        } else {
            outcome(self.stage(n - 1), self.from, self.list(n - 1), self.step(n - 1))
        }
    }
}

/// What a phase lists are the entries that take part in it, each once.
proof fn lemma_lists(job: Job, n: int, place: Seq<PartView>)
    requires
        job.valid(),
        0 <= n < 8,
    ensures
        all_different(job.src),
        all_different(job.dst),
        all_different(job.list(n)),
        listed(job.list(n), place) <==> listed(job.tree(n), place) && job.wants(
            n,
            item_at(job.tree(n), place),
        ),
        listed(job.list(n), place) ==> item_at(job.list(n), place) == item_at(
            job.tree(n),
            place,
        ),
{
    sorted_items_differ(job.src);
    sorted_items_differ(job.dst);
    let src = job.src;
    let dst = job.dst;
    let tol = job.tol;
    let forced = job.forced;
    if n == 0 {
        lemma_listed_filter(src, |i: Item| blocked(i.entry, lookup(dst, i.path)), place);
    } else if n == 1 {
        lemma_listed_filter(
            src,
            |i: Item| i.entry.kind is Dir && !matched(i.entry, lookup(dst, i.path)),
            place,
        );
        shallow_first_orders(new_dirs(src, dst));
        lemma_reordered(job.list(1), new_dirs(src, dst), place);
    } else if n == 2 {
        lemma_listed_filter(
            src,
            |i: Item|
                i.entry.kind is File && !stays(
                    i.entry,
                    lookup(dst, i.path),
                    tol,
                    holds(forced, i.path),
                ),
            place,
        );
    } else if n == 3 {
        lemma_listed_filter(
            src,
            |i: Item| i.entry.kind is Symlink && !link_in_sync(i.entry, lookup(dst, i.path), tol),
            place,
        );
    } else if n == 4 {
        lemma_listed_filter(
            src,
            |i: Item|
                stays(i.entry, lookup(dst, i.path), tol, holds(forced, i.path)) && i.entry.mode
                    != lookup(dst, i.path)->0.mode,
            place,
        );
    } else if job.hold && (n == 5 || n == 6) {
        reveal(Seq::filter);
        assert(job.list(n).len() == 0);
        assert(!listed(job.list(n), place));
    } else if n == 5 {
        lemma_listed_filter(
            dst,
            |i: Item| is_stale(i, src, dst) && !(i.entry.kind is Dir),
            place,
        );
    } else if n == 6 {
        lemma_listed_filter(
            dst,
            |i: Item| is_stale(i, src, dst) && i.entry.kind is Dir,
            place,
        );
        deep_first_orders(stale_dirs(dst, src, dst));
        lemma_reordered(job.all(6), stale_dirs(dst, src, dst), place);
        lemma_listed_filter(job.all(6), |i: Item| job.is_clear(i), place);
    } else {
        lemma_listed_filter(
            src,
            |i: Item|
                i.entry.kind is Dir && (!dir_in_sync(i.entry, lookup(dst, i.path), tol)
                    || holds_child(changed(src, dst, tol, forced), i.path)),
            place,
        );
        deep_first_orders(dir_metas(src, dst, tol, forced));
        lemma_reordered(job.list(7), dir_metas(src, dst, tol, forced), place);
    }
}

/// Entry `j` of a phase, seen from its place.
proof fn lemma_entry(job: Job, n: int, j: int)
    requires
        job.valid(),
        0 <= n < 8,
        0 <= j < job.list(n).len(),
    ensures
        ({
            let item = job.list(n)[j];
            let place = parts(item.path);
            &&& all_different(job.list(n))
            &&& stands_at(job.list(n), j, place)
            &&& listed(job.list(n), place)
            &&& item_at(job.list(n), place) == item
            &&& listed(job.tree(n), place)
            &&& item_at(job.tree(n), place) == item
            &&& job.wants(n, item)
            &&& place.len() > 0
            &&& !is_rooted(item.path)
        }),
{
    let item = job.list(n)[j];
    let place = parts(item.path);
    lemma_lists(job, n, place);
    assert(stands_at(job.list(n), j, place));
    lemma_item_at(job.list(n), j, place);
    let k = choose|k: int| stands_at(job.tree(n), k, place);
    lemma_item_at(job.tree(n), k, place);
    assert(job.tree(n)[k] == item);
}

/// What stands at a place of a scanned tree.
proof fn lemma_node(job: Job, place: Seq<PartView>)
    requires
        job.valid(),
    ensures
        listed(job.src, place) || listed(job.dst, place) ==> !(job.hidden)(place),
        !(job.hidden)(place) ==> (listed(job.dst, place) <==> (job.to)(place) is Some),
        listed(job.src, place) ==> {
            let i = item_at(job.src, place);
            &&& parts(i.path) == place
            &&& shows((job.from)(place), i.entry)
            &&& place.len() > 0
            &&& !is_rooted(i.path)
            &&& lookup(job.src, i.path) == Some(i.entry)
            &&& lookup(job.dst, i.path) is Some <==> listed(job.dst, place)
            &&& listed(job.dst, place) ==> lookup(job.dst, i.path) == Some(
                item_at(job.dst, place).entry,
            )
        },
        listed(job.dst, place) ==> {
            let i = item_at(job.dst, place);
            &&& parts(i.path) == place
            &&& shows((job.to)(place), i.entry)
            &&& place.len() > 0
            &&& !is_rooted(i.path)
            &&& lookup(job.dst, i.path) == Some(i.entry)
            &&& lookup(job.src, i.path) is Some <==> listed(job.src, place)
        },
{
    sorted_items_differ(job.src);
    sorted_items_differ(job.dst);
    if listed(job.src, place) {
        let k = choose|k: int| stands_at(job.src, k, place);
        lemma_item_at(job.src, k, place);
        lemma_lookup(job.from, job.src, job.src[k].path);
        lemma_lookup(job.to, job.dst, job.src[k].path);
    }
    if listed(job.dst, place) {
        let k = choose|k: int| stands_at(job.dst, k, place);
        lemma_item_at(job.dst, k, place);
        lemma_lookup(job.to, job.dst, job.dst[k].path);
        lemma_lookup(job.from, job.src, job.dst[k].path);
    }
}

/// A conflict never takes along what both trees hold.
proof fn lemma_conflicts_spare(job: Job, place: Seq<PartView>)
    requires
        job.valid(),
        listed(job.src, place),
        listed(job.dst, place),
        covered(job.list(0), place),
    ensures
        listed(job.list(0), place),
{
    let list = job.list(0);
    let j = choose|j: int| 0 <= j < list.len() && below(parts((#[trigger] list[j]).path), place);
    let top = parts(list[j].path);
    lemma_entry(job, 0, j);
    lemma_node(job, top);
    if top != place {
        lemma_lists(job, 0, place);
        lemma_above_is_dir(job.src, top, place);
        lemma_above_is_dir(job.dst, top, place);
    }
}

/// Below a conflict lies what the plan calls so.
proof fn lemma_under_conflict(job: Job, place: Seq<PartView>)
    requires
        job.valid(),
        listed(job.dst, place),
        !listed(job.src, place),
    ensures
        covered(job.list(0), place) <==> lies_under(job.list(0), item_at(job.dst, place).path),
{
    let list = job.list(0);
    let path = item_at(job.dst, place).path;
    lemma_node(job, place);
    assert forall|j: int| 0 <= j < list.len() implies below(
        parts((#[trigger] list[j]).path),
        place,
    ) == is_above(list[j].path, path) by {
        lemma_entry(job, 0, j);
        let top = parts(list[j].path);
        if top.len() == place.len() {
            assert(place.take(top.len() as int) =~= place);
        }
    }
    if covered(list, place) {
        let j = choose|j: int| 0 <= j < list.len() && below(parts((#[trigger] list[j]).path), place);
        assert(is_above(list[j].path, path));
    }
    if lies_under(list, path) {
        let j = choose|j: int| 0 <= j < list.len() && is_above((#[trigger] list[j]).path, path);
        assert(below(parts(list[j].path), place));
    }
}

/// The same node, but for the mtime of a directory.
spec fn still(a: Option<Node>, b: Option<Node>) -> bool {
    a == b || a == moved(b)
}

/// A place that a phase neither names nor clears stays as it is.
proof fn lemma_untouched(disk: Disk, from: Disk, list: Seq<Item>, step: Step, place: Seq<PartView>)
    requires
        !listed(list, place),
        clears(step) ==> !covered(list, place),
    ensures
        still(outcome(disk, from, list, step)(place), disk(place)),
        !holds_listed(list, place) || !stirs(step) ==> outcome(disk, from, list, step)(place)
            == disk(place),
        disk(place) is Some && !(disk(place)->0.kind is Dir) ==> outcome(
            disk,
            from,
            list,
            step,
        )(place) == disk(place),
        disk(place) is None ==> outcome(disk, from, list, step)(place) is None,
{
}

/// What no link of the source stands above is not cleared by links.
proof fn lemma_links_spare(job: Job, place: Seq<PartView>)
    requires
        job.valid(),
        !listed(job.list(3), place),
        listed(job.src, place) || (listed(job.dst, place) && !covered(job.list(0), place)),
    ensures
        !covered(job.list(3), place),
{
    let list = job.list(3);
    if covered(list, place) {
        let j = choose|j: int| 0 <= j < list.len() && below(parts((#[trigger] list[j]).path), place);
        let top = parts(list[j].path);
        lemma_entry(job, 3, j);
        lemma_node(job, top);
        lemma_lists(job, 0, top);
        if listed(job.src, place) {
            lemma_above_is_dir(job.src, top, place);
        } else {
            lemma_above_is_dir(job.dst, top, place);
            assert(listed(job.list(0), top));
            let i = choose|i: int| stands_at(job.list(0), i, top);
            assert(below(parts(job.list(0)[i].path), place));
        }
    }
}

/// Removed directories never hold what the source holds.
proof fn lemma_removals_spare(job: Job, place: Seq<PartView>)
    requires
        job.valid(),
        listed(job.src, place),
    ensures
        !listed(job.list(5), place),
        !listed(job.list(6), place),
        !covered(job.list(6), place),
{
    lemma_node(job, place);
    assert(!listed(job.list(5), place)) by {
        lemma_lists(job, 5, place);
    }
    assert(!listed(job.list(6), place)) by {
        lemma_lists(job, 6, place);
    }
    let list = job.list(6);
    if covered(list, place) {
        let j = choose|j: int| 0 <= j < list.len() && below(parts((#[trigger] list[j]).path), place);
        let top = parts(list[j].path);
        lemma_entry(job, 6, j);
        assert(top != place);
        sorted_items_differ(job.src);
        lemma_above_is_dir(job.src, top, place);
        lemma_node(job, top);
    }
}

/// What becomes of a place that the source holds.
proof fn lemma_source_place(job: Job, place: Seq<PartView>)
    requires
        job.valid(),
        listed(job.src, place),
    ensures
        ({
            let i = item_at(job.src, place);
            let s = i.entry;
            let m = matched(s, lookup(job.dst, i.path));
            let t = (job.to)(place);
            &&& m ==> still(job.stage(1)(place), t)
            &&& !m ==> job.stage(1)(place) is None
            &&& s.kind is Dir && m ==> {
                &&& is_dir_at(job.to, place)
                &&& still(job.stage(2)(place), t)
                &&& still(job.stage(3)(place), t)
                &&& still(job.stage(4)(place), t)
                &&& still(job.stage(5)(place), t)
                &&& still(job.stage(6)(place), t)
                &&& still(job.stage(7)(place), t)
            }
            &&& s.kind is Dir && !m ==> {
                &&& job.stage(2)(place) == Some(fresh_dir())
                &&& job.stage(3)(place) == Some(fresh_dir())
                &&& job.stage(4)(place) == Some(fresh_dir())
                &&& job.stage(5)(place) == Some(fresh_dir())
                &&& job.stage(6)(place) == Some(fresh_dir())
                &&& job.stage(7)(place) == Some(fresh_dir())
            }
            &&& s.kind is Dir ==> job.stage(8)(place) == if job.wants(7, i) {
                Some(with_meta(job.stage(7)(place)->0, s.mtime, s.mode))
            } else {
                job.stage(7)(place)
            }
            &&& !(s.kind is Dir) ==> job.stage(2)(place) == if m {
                t
            } else {
                None
            }
            &&& s.kind is File ==> {
                let copied = if job.wants(2, i) {
                    (job.from)(place)
                } else {
                    t
                };
                let fixed = if job.wants(4, i) {
                    Some(with_mode(t->0, s.mode))
                } else {
                    copied
                };
                &&& !job.wants(2, i) ==> m
                &&& job.stage(3)(place) == copied
                &&& job.stage(4)(place) == copied
                &&& job.stage(5)(place) == fixed
                &&& job.stage(8)(place) == fixed
            }
            &&& s.kind is Symlink ==> {
                let linked = if job.wants(3, i) {
                    Some(fresh_link(s.kind->Symlink_0, s.mtime))
                } else {
                    t
                };
                &&& !job.wants(3, i) ==> m
                &&& job.stage(3)(place) == job.stage(2)(place)
                &&& job.stage(4)(place) == linked
                &&& job.stage(8)(place) == linked
            }
        }),
{
    lemma_node(job, place);
    let i = item_at(job.src, place);
    lemma_lists(job, 0, place);
    lemma_lists(job, 1, place);
    lemma_lists(job, 2, place);
    lemma_lists(job, 3, place);
    lemma_lists(job, 4, place);
    lemma_lists(job, 7, place);
    lemma_removals_spare(job, place);
    if !listed(job.list(3), place) {
        lemma_links_spare(job, place);
        lemma_untouched(job.stage(3), job.from, job.list(3), job.step(3), place);
    }
    if listed(job.dst, place) && !listed(job.list(0), place) {
        if covered(job.list(0), place) {
            lemma_conflicts_spare(job, place);
        }
        lemma_untouched(job.stage(0), job.from, job.list(0), job.step(0), place);
    }
    if !listed(job.list(1), place) {
        lemma_untouched(job.stage(1), job.from, job.list(1), job.step(1), place);
    }
    if !listed(job.list(2), place) {
        lemma_untouched(job.stage(2), job.from, job.list(2), job.step(2), place);
    }
    if !listed(job.list(4), place) {
        lemma_untouched(job.stage(4), job.from, job.list(4), job.step(4), place);
    }
    lemma_untouched(job.stage(5), job.from, job.list(5), job.step(5), place);
    lemma_untouched(job.stage(6), job.from, job.list(6), job.step(6), place);
    if !listed(job.list(7), place) {
        lemma_untouched(job.stage(7), job.from, job.list(7), job.step(7), place);
    }
    let s = i.entry;
    let m = matched(s, lookup(job.dst, i.path));
    let t = (job.to)(place);
    assert(job.stage(0)(place) == t);
    assert(m ==> still(job.stage(1)(place), t));
    assert(!m ==> job.stage(1)(place) is None);
    if s.kind is Dir {
        assert(!m ==> job.stage(2)(place) == Some(fresh_dir()));
        assert(m ==> still(job.stage(2)(place), t));
        assert(m ==> still(job.stage(3)(place), t));
        assert(m ==> still(job.stage(4)(place), t));
        assert(m ==> still(job.stage(5)(place), t));
        assert(m ==> still(job.stage(6)(place), t));
        assert(m ==> still(job.stage(7)(place), t));
    } else if s.kind is File {
        assert(job.stage(2)(place) == if m {
            t
        } else {
            None
        });
        assert(job.stage(3)(place) == if job.wants(2, i) {
            (job.from)(place)
        } else {
            t
        });
        assert(job.stage(4)(place) == job.stage(3)(place));
        assert(job.stage(6)(place) == job.stage(5)(place));
        assert(job.stage(7)(place) == job.stage(5)(place));
        assert(job.stage(8)(place) == job.stage(5)(place));
    } else {
        assert(job.stage(2)(place) == if m {
            t
        } else {
            None
        });
        assert(job.stage(3)(place) == job.stage(2)(place));
        assert(job.stage(5)(place) == job.stage(4)(place));
        assert(job.stage(6)(place) == job.stage(4)(place));
        assert(job.stage(7)(place) == job.stage(4)(place));
        assert(job.stage(8)(place) == job.stage(4)(place));
    }
}

/// What becomes of a place that only the target holds.
proof fn lemma_target_place(job: Job, place: Seq<PartView>)
    requires
        job.valid(),
        listed(job.dst, place),
        !listed(job.src, place),
    ensures
        covered(job.list(0), place) ==> job.stage(6)(place) is None && job.stage(8)(place)
            is None,
        !covered(job.list(0), place) ==> is_stale(item_at(job.dst, place), job.src, job.dst),
        !job.hold && job.is_clear(item_at(job.dst, place)) ==> job.stage(8)(place) is None,
        !job.hold && !(item_at(job.dst, place).entry.kind is Dir) ==> job.stage(6)(place) is None
            && job.stage(8)(place) is None,
        !covered(job.list(0), place) && item_at(job.dst, place).entry.kind is Dir && !job.is_clear(
            item_at(job.dst, place),
        ) ==> still(job.stage(8)(place), (job.to)(place)),
        job.hold && !covered(job.list(0), place) ==> still(
            job.stage(8)(place),
            (job.to)(place),
        ),
        ({
            let i = item_at(job.dst, place);
            is_stale(i, job.src, job.dst) ==> {
                &&& still(job.stage(5)(place), (job.to)(place))
                &&& i.entry.kind is Dir || job.hold ==> still(job.stage(6)(place), (job.to)(place))
            }
        }),
{
    lemma_node(job, place);
    lemma_under_conflict(job, place);
    lemma_lists(job, 0, place);
    lemma_lists(job, 1, place);
    lemma_lists(job, 2, place);
    lemma_lists(job, 3, place);
    lemma_lists(job, 4, place);
    lemma_lists(job, 5, place);
    lemma_lists(job, 6, place);
    lemma_lists(job, 7, place);
    if !covered(job.list(0), place) {
        lemma_untouched(job.stage(0), job.from, job.list(0), job.step(0), place);
        lemma_links_spare(job, place);
        lemma_untouched(job.stage(3), job.from, job.list(3), job.step(3), place);
    }
    lemma_untouched(job.stage(1), job.from, job.list(1), job.step(1), place);
    lemma_untouched(job.stage(2), job.from, job.list(2), job.step(2), place);
    lemma_untouched(job.stage(4), job.from, job.list(4), job.step(4), place);
    if !listed(job.list(5), place) {
        lemma_untouched(job.stage(5), job.from, job.list(5), job.step(5), place);
    }
    if covered(job.list(6), place) {
        lemma_deleted_is_clear(job, place);
    } else if !listed(job.list(6), place) {
        lemma_untouched(job.stage(6), job.from, job.list(6), job.step(6), place);
    }
    lemma_untouched(job.stage(7), job.from, job.list(7), job.step(7), place);
    if covered(job.list(0), place) {
        assert(job.stage(1)(place) is None);
        assert(job.stage(2)(place) is None);
        assert(job.stage(3)(place) is None);
        assert(job.stage(4)(place) is None);
        assert(job.stage(5)(place) is None);
        assert(job.stage(6)(place) is None);
    } else {
        assert(still(job.stage(1)(place), (job.to)(place)));
        assert(still(job.stage(2)(place), (job.to)(place)));
        assert(still(job.stage(3)(place), (job.to)(place)));
        assert(still(job.stage(4)(place), (job.to)(place)));
        assert(still(job.stage(5)(place), (job.to)(place)));
    }
    if job.hold && !covered(job.list(0), place) {
        assert(still(job.stage(6)(place), (job.to)(place)));
        assert(still(job.stage(7)(place), (job.to)(place)));
    } else if covered(job.list(0), place) || job.is_clear(item_at(job.dst, place)) {
        assert(job.stage(7)(place) is None);
    } else if !(item_at(job.dst, place).entry.kind is Dir) {
        assert(job.stage(6)(place) is None);
        assert(job.stage(7)(place) is None);
    } else {
        assert(still(job.stage(6)(place), (job.to)(place)));
        assert(still(job.stage(7)(place), (job.to)(place)));
    }
}

/// What goes with a deleted directory holds nothing that is to be spared.
proof fn lemma_deleted_is_clear(job: Job, place: Seq<PartView>)
    requires
        job.valid(),
        covered(job.list(6), place),
    ensures
        !job.hold,
        !holds_spared(job.to, job.spared, place),
{
    let list = job.list(6);
    let j = choose|j: int| 0 <= j < list.len() && below(parts((#[trigger] list[j]).path), place);
    let top = parts(list[j].path);
    lemma_entry(job, 6, j);
    if holds_spared(job.to, job.spared, place) {
        let q = choose|q: Seq<PartView>| #[trigger]
            (job.spared)(q) && below(place, q) && (job.to)(q) is Some;
        assert(q.take(top.len() as int) =~= place.take(top.len() as int));
        assert(below(top, q));
    }
}

/// Nothing appears at a place that neither tree holds.
proof fn lemma_empty_place(job: Job, place: Seq<PartView>)
    requires
        job.valid(),
        !listed(job.dst, place),
        !listed(job.src, place),
        !(job.hidden)(place),
    ensures
        job.stage(6)(place) is None,
        job.stage(8)(place) is None,
{
    lemma_node(job, place);
    lemma_lists(job, 0, place);
    lemma_lists(job, 1, place);
    lemma_lists(job, 2, place);
    lemma_lists(job, 3, place);
    lemma_lists(job, 4, place);
    lemma_lists(job, 5, place);
    lemma_lists(job, 6, place);
    lemma_lists(job, 7, place);
    assert(job.stage(0)(place) is None);
    assert(job.stage(1)(place) is None);
    assert(job.stage(2)(place) is None);
    assert(job.stage(3)(place) is None);
    assert(job.stage(4)(place) is None);
    assert(job.stage(5)(place) is None);
    assert(job.stage(6)(place) is None);
    assert(job.stage(7)(place) is None);
}

/// The first entries of a list are entries of the list.
proof fn lemma_first_entries(list: Seq<Item>, k: int, place: Seq<PartView>)
    requires
        0 <= k < list.len(),
        all_different(list),
    ensures
        listed(list.take(k), place) ==> listed(list, place),
        covered(list.take(k), place) ==> covered(list, place),
        !listed(list.take(k), parts(list[k].path)),
{
    let a = list.take(k);
    if listed(a, place) {
        let j = choose|j: int| stands_at(a, j, place);
        assert(stands_at(list, j, place));
    }
    if covered(a, place) {
        let j = choose|j: int| 0 <= j < a.len() && below(parts((#[trigger] a[j]).path), place);
        assert(below(parts(list[j].path), place));
    }
    if listed(a, parts(list[k].path)) {
        let j = choose|j: int| stands_at(a, j, parts(list[k].path));
        assert(a[j] == list[j]);
        assert(!same_path(list[j].path, list[k].path));
    }
}

/// What lies in a directory of the source has that directory in the source.
proof fn lemma_parent_listed(job: Job, place: Seq<PartView>)
    requires
        job.valid(),
        listed(job.src, place),
        place.len() > 1,
    ensures
        listed(job.src, place.drop_last()),
        item_at(job.src, place.drop_last()).entry.kind is Dir,
{
    let i = choose|i: int| stands_at(job.src, i, place);
    assert(dir_listed(job.src, parts(job.src[i].path).drop_last()));
    let j = choose|j: int|
        #[trigger] stands_at(job.src, j, place.drop_last()) && job.src[j].entry.kind is Dir;
    sorted_items_differ(job.src);
    lemma_item_at(job.src, j, place.drop_last());
}

/// Conflicts are there to be removed.
proof fn lemma_conflicts_work(job: Job, k: int)
    requires
        job.valid(),
        0 <= k < job.list(0).len(),
    ensures
        works(
            outcome(job.stage(0), job.from, job.list(0).take(k), job.step(0)),
            job.from,
            job.spared,
            render(job.list(0)[k], job.step(0)),
        ),
{
    let list = job.list(0);
    let key = parts(list[k].path);
    lemma_entry(job, 0, k);
    lemma_node(job, key);
    lemma_first_entries(list, k, key);
    let a = list.take(k);
    assert(!covered(a, key)) by {
        if covered(a, key) {
            let j = choose|j: int| 0 <= j < a.len() && below(parts((#[trigger] a[j]).path), key);
            assert(a[j] == list[j]);
            lemma_entry(job, 0, j);
            let top = parts(list[j].path);
            assert(!same_path(list[j].path, list[k].path));
            lemma_node(job, top);
            sorted_items_differ(job.src);
            sorted_items_differ(job.dst);
            lemma_above_is_dir(job.src, top, key);
            lemma_above_is_dir(job.dst, top, key);
        }
    }
    assert(job.stage(0)(key) == (job.to)(key));
    lemma_untouched(job.stage(0), job.from, a, job.step(0), key);
    let d = outcome(job.stage(0), job.from, a, job.step(0));
    assert(!holds_spared(d, job.spared, key)) by {
        if holds_spared(d, job.spared, key) {
            let q = choose|q: Seq<PartView>| #[trigger]
                (job.spared)(q) && below(key, q) && d(q) is Some;
            assert((job.hidden)(q));
            lemma_node(job, q);
            lemma_lists(job, 0, q);
            lemma_first_entries(list, k, q);
            assert((job.to)(q) is Some);
            assert(below(parts(conflicts(job.src, job.dst)[k].path), q));
        }
    }
}

/// What becomes of a spared place.
proof fn lemma_spared_place(job: Job, place: Seq<PartView>)
    requires
        job.valid(),
        (job.spared)(place),
    ensures
        (job.to)(place) is None ==> job.stage(3)(place) is None && job.stage(6)(place) is None,
        (job.to)(place) is Some ==> {
            &&& !covered(job.list(3), place)
            &&& !covered(job.list(6), place)
            &&& still(job.stage(6)(place), (job.to)(place))
            &&& still(job.stage(8)(place), (job.to)(place))
        },
{
    assert((job.hidden)(place));
    lemma_node(job, place);
    lemma_lists(job, 0, place);
    lemma_lists(job, 1, place);
    lemma_lists(job, 2, place);
    lemma_lists(job, 3, place);
    lemma_lists(job, 4, place);
    lemma_lists(job, 5, place);
    lemma_lists(job, 6, place);
    lemma_lists(job, 7, place);
    assert(job.stage(0)(place) == (job.to)(place));
    if (job.to)(place) is None {
        assert(job.stage(1)(place) is None);
        assert(job.stage(2)(place) is None);
        assert(job.stage(3)(place) is None);
        assert(job.stage(4)(place) is None);
        assert(job.stage(5)(place) is None);
        assert(job.stage(6)(place) is None);
    } else {
        assert(!covered(job.list(0), place));
        assert(!covered(job.list(6), place)) by {
            if covered(job.list(6), place) {
                lemma_deleted_is_clear(job, place);
                assert(place.take(place.len() as int) =~= place);
                assert(below(place, place));
            }
        }
        lemma_links_spare_hidden(job, place);
        lemma_untouched(job.stage(0), job.from, job.list(0), job.step(0), place);
        lemma_untouched(job.stage(1), job.from, job.list(1), job.step(1), place);
        lemma_untouched(job.stage(2), job.from, job.list(2), job.step(2), place);
        lemma_untouched(job.stage(3), job.from, job.list(3), job.step(3), place);
        lemma_untouched(job.stage(4), job.from, job.list(4), job.step(4), place);
        lemma_untouched(job.stage(5), job.from, job.list(5), job.step(5), place);
        lemma_untouched(job.stage(6), job.from, job.list(6), job.step(6), place);
        lemma_untouched(job.stage(7), job.from, job.list(7), job.step(7), place);
        assert(still(job.stage(1)(place), (job.to)(place)));
        assert(still(job.stage(2)(place), (job.to)(place)));
        assert(still(job.stage(3)(place), (job.to)(place)));
        assert(still(job.stage(4)(place), (job.to)(place)));
        assert(still(job.stage(5)(place), (job.to)(place)));
        assert(still(job.stage(6)(place), (job.to)(place)));
        assert(still(job.stage(7)(place), (job.to)(place)));
    }
}

/// No new link stands above something hidden.
proof fn lemma_links_spare_hidden(job: Job, place: Seq<PartView>)
    requires
        job.valid(),
        (job.hidden)(place),
        (job.to)(place) is Some,
        !covered(job.list(0), place),
    ensures
        !covered(job.list(3), place),
{
    let links = job.list(3);
    if covered(links, place) {
        let j = choose|j: int|
            0 <= j < links.len() && below(parts((#[trigger] links[j]).path), place);
        let top = parts(links[j].path);
        lemma_entry(job, 3, j);
        lemma_node(job, top);
        lemma_lists(job, 0, top);
        if top.len() == place.len() {
            assert(place.take(top.len() as int) =~= place);
        }
        lemma_dirs_on_disk(job.to, place, top.len() as int);
        assert(listed(job.list(0), top));
        let i = choose|i: int| stands_at(job.list(0), i, top);
        assert(below(parts(job.list(0)[i].path), place));
    }
}

/// Links can be created: nothing hidden is in their place.
proof fn lemma_links_work(job: Job, k: int)
    requires
        job.valid(),
        0 <= k < job.list(3).len(),
    ensures
        works(
            outcome(job.stage(3), job.from, job.list(3).take(k), job.step(3)),
            job.from,
            job.spared,
            render(job.list(3)[k], job.step(3)),
        ),
{
    let list = job.list(3);
    let key = parts(list[k].path);
    let d = outcome(job.stage(3), job.from, list.take(k), job.step(3));
    lemma_room(job, 3, k);
    assert(!holds_spared(d, job.spared, key)) by {
        if holds_spared(d, job.spared, key) {
            let q = choose|q: Seq<PartView>| #[trigger]
                (job.spared)(q) && below(key, q) && d(q) is Some;
            assert((job.hidden)(q));
            lemma_node(job, q);
            lemma_lists(job, 3, q);
            lemma_first_entries(list, k, q);
            lemma_spared_place(job, q);
            assert(below(parts(list[k].path), q));
        }
    }
}

/// Directories can be created: what is to hold them comes before them.
proof fn lemma_mkdirs_work(job: Job, k: int)
    requires
        job.valid(),
        0 <= k < job.list(1).len(),
    ensures
        job.stage(1)(parts(job.list(1)[k].path)) is None,
        works(
            outcome(job.stage(1), job.from, job.list(1).take(k), job.step(1)),
            job.from,
            job.spared,
            render(job.list(1)[k], job.step(1)),
        ),
{
    let list = job.list(1);
    let key = parts(list[k].path);
    let a = list.take(k);
    lemma_entry(job, 1, k);
    lemma_source_place(job, key);
    lemma_first_entries(list, k, key);
    lemma_untouched(job.stage(1), job.from, a, job.step(1), key);
    if key.len() > 1 {
        let up = key.drop_last();
        lemma_parent_listed(job, key);
        lemma_source_place(job, up);
        lemma_lists(job, 1, up);
        lemma_first_entries(list, k, up);
        if listed(list, up) {
            let j = choose|j: int| stands_at(list, j, up);
            shallow_first_orders_of(job);
            assert(j < k) by {
                if j > k {
                    assert(depth(list[k].path) <= depth(list[j].path));
                }
            }
            assert(stands_at(a, j, up));
            lemma_item_at(a, j, up);
        } else {
            lemma_untouched(job.stage(1), job.from, a, job.step(1), up);
        }
    }
}

proof fn shallow_first_orders_of(job: Job)
    requires
        job.valid(),
    ensures
        forall|i: int, j: int|
            0 <= i < j < job.list(1).len() ==> depth((#[trigger] job.list(1)[i]).path) <= depth(
                (#[trigger] job.list(1)[j]).path,
            ),
{
    sorted_items_differ(job.src);
    filter_keeps_different(
        job.src,
        |i: Item| i.entry.kind is Dir && !matched(i.entry, lookup(job.dst, i.path)),
    );
    shallow_first_orders(new_dirs(job.src, job.dst));
}

/// Files and links can be created: what is to hold them stands.
proof fn lemma_room(job: Job, n: int, k: int)
    requires
        job.valid(),
        n == 2 || n == 3,
        0 <= k < job.list(n).len(),
    ensures
        has_room(
            outcome(job.stage(n), job.from, job.list(n).take(k), job.step(n)),
            parts(job.list(n)[k].path),
        ),
{
    let list = job.list(n);
    let key = parts(list[k].path);
    let a = list.take(k);
    lemma_entry(job, n, k);
    if key.len() > 1 {
        let up = key.drop_last();
        lemma_parent_listed(job, key);
        lemma_source_place(job, up);
        lemma_lists(job, n, up);
        lemma_first_entries(list, k, up);
        if n == 3 {
            lemma_links_spare(job, up);
        }
        lemma_untouched(job.stage(n), job.from, a, job.step(n), up);
    }
}

/// Files can be copied.
proof fn lemma_copies_work(job: Job, k: int)
    requires
        job.valid(),
        0 <= k < job.list(2).len(),
    ensures
        (job.from)(parts(job.list(2)[k].path)) is Some,
        (job.from)(parts(job.list(2)[k].path))->0.kind is File,
        works(
            outcome(job.stage(2), job.from, job.list(2).take(k), job.step(2)),
            job.from,
            job.spared,
            render(job.list(2)[k], job.step(2)),
        ),
{
    let list = job.list(2);
    let key = parts(list[k].path);
    let a = list.take(k);
    lemma_entry(job, 2, k);
    lemma_node(job, key);
    lemma_source_place(job, key);
    lemma_first_entries(list, k, key);
    lemma_untouched(job.stage(2), job.from, a, job.step(2), key);
    lemma_room(job, 2, k);
}

/// Permissions can be set: the file is there.
proof fn lemma_modes_work(job: Job, k: int)
    requires
        job.valid(),
        0 <= k < job.list(4).len(),
    ensures
        works(
            outcome(job.stage(4), job.from, job.list(4).take(k), job.step(4)),
            job.from,
            job.spared,
            render(job.list(4)[k], job.step(4)),
        ),
{
    let list = job.list(4);
    let key = parts(list[k].path);
    let a = list.take(k);
    lemma_entry(job, 4, k);
    lemma_node(job, key);
    lemma_source_place(job, key);
    lemma_first_entries(list, k, key);
    lemma_untouched(job.stage(4), job.from, a, job.step(4), key);
}

/// Files can be deleted: they are there.
proof fn lemma_file_deletes_work(job: Job, k: int)
    requires
        job.valid(),
        0 <= k < job.list(5).len(),
    ensures
        works(
            outcome(job.stage(5), job.from, job.list(5).take(k), job.step(5)),
            job.from,
            job.spared,
            render(job.list(5)[k], job.step(5)),
        ),
{
    let list = job.list(5);
    let key = parts(list[k].path);
    let a = list.take(k);
    lemma_entry(job, 5, k);
    lemma_node(job, key);
    lemma_target_place(job, key);
    lemma_first_entries(list, k, key);
    lemma_untouched(job.stage(5), job.from, a, job.step(5), key);
}

/// Directories can be deleted: none goes before what lies in it.
proof fn lemma_dir_deletes_work(job: Job, k: int)
    requires
        job.valid(),
        0 <= k < job.list(6).len(),
    ensures
        ({
            let d = outcome(job.stage(6), job.from, job.list(6).take(k), job.step(6));
            &&& works(d, job.from, job.spared, render(job.list(6)[k], job.step(6)))
            &&& !holds_spared(d, job.spared, parts(job.list(6)[k].path))
        }),
{
    let list = job.list(6);
    let key = parts(list[k].path);
    let a = list.take(k);
    let d = outcome(job.stage(6), job.from, a, job.step(6));
    lemma_entry(job, 6, k);
    lemma_node(job, key);
    lemma_target_place(job, key);
    lemma_first_entries(list, k, key);
    assert(!covered(a, key)) by {
        if covered(a, key) {
            let j = choose|j: int| 0 <= j < a.len() && below(parts((#[trigger] a[j]).path), key);
            assert(a[j] == list[j]);
            lemma_deletes_deep_first(job);
            assert(depth(list[j].path) >= depth(list[k].path));
            assert(key.take(key.len() as int) =~= key);
            assert(!same_path(list[j].path, list[k].path));
        }
    }
    lemma_untouched(job.stage(6), job.from, a, job.step(6), key);
    if holds_spared(d, job.spared, key) {
        let q = choose|q: Seq<PartView>| #[trigger]
            (job.spared)(q) && below(key, q) && d(q) is Some;
        assert((job.hidden)(q));
        lemma_node(job, q);
        lemma_lists(job, 6, q);
        lemma_first_entries(list, k, q);
        lemma_spared_place(job, q);
    }
}

proof fn lemma_deletes_deep_first(job: Job)
    requires
        job.valid(),
    ensures
        forall|i: int, j: int|
            0 <= i < j < job.list(6).len() ==> depth((#[trigger] job.list(6)[i]).path) >= depth(
                (#[trigger] job.list(6)[j]).path,
            ),
{
    if job.hold {
        reveal(Seq::filter);
    } else {
        sorted_items_differ(job.dst);
        filter_keeps_different(
            job.dst,
            |i: Item| is_stale(i, job.src, job.dst) && i.entry.kind is Dir,
        );
        deep_first_orders(stale_dirs(job.dst, job.src, job.dst));
        lemma_filter_keeps_depths(job.all(6), |i: Item| job.is_clear(i));
    }
}

/// Choosing from a list keeps the order by depth.
proof fn lemma_filter_keeps_depths(list: Seq<Item>, p: spec_fn(Item) -> bool)
    requires
        forall|i: int, j: int|
            0 <= i < j < list.len() ==> depth((#[trigger] list[i]).path) >= depth(
                (#[trigger] list[j]).path,
            ),
    ensures
        forall|i: int, j: int|
            0 <= i < j < list.filter(p).len() ==> depth((#[trigger] list.filter(p)[i]).path)
                >= depth((#[trigger] list.filter(p)[j]).path),
    decreases list.len(),
{
    reveal(Seq::filter);
    if list.len() > 0 {
        let rest = list.drop_last();
        lemma_filter_keeps_depths(rest, p);
        filter_members(rest, p);
        assert forall|i: int, j: int| 0 <= i < j < list.filter(p).len() implies depth(
            (#[trigger] list.filter(p)[i]).path,
        ) >= depth((#[trigger] list.filter(p)[j]).path) by {
            assert(rest.filter(p).contains(rest.filter(p)[i]));
            let a = choose|a: int| 0 <= a < rest.len() && rest[a] == rest.filter(p)[i];
            assert(list[a] == rest[a]);
            if j < rest.filter(p).len() {
                assert(depth(rest.filter(p)[i].path) >= depth(rest.filter(p)[j].path));
            } else {
                assert(list[list.len() - 1] == list.last());
            }
        }
    }
}

/// Deleting directories leaves those that hold something to be spared, and takes
/// the target to the next stage.
proof fn lemma_dir_deletes_run(job: Job, n: int)
    requires
        job.valid(),
        0 <= n <= job.all(6).len(),
    ensures
        run(
            job.stage(6),
            job.from,
            job.spared,
            rendered(job.all(6).take(n), Step::DropDir),
        ) == Some(
            outcome(
                job.stage(6),
                job.from,
                job.all(6).take(n).filter(|i: Item| job.is_clear(i)),
                Step::DropDir,
            ),
        ),
    decreases n,
{
    reveal(Seq::filter);
    let all = job.all(6);
    let p = |i: Item| job.is_clear(i);
    let acts = rendered(all.take(n), Step::DropDir);
    let disk = job.stage(6);
    lemma_lists(job, 6, Seq::empty());
    if n == 0 {
        let none = all.take(0).filter(p);
        let e = outcome(disk, job.from, none, Step::DropDir);
        assert forall|place: Seq<PartView>| #[trigger] e(place) == disk(place) by {
            assert(!listed(none, place));
        }
        assert(e =~= disk);
    } else {
        lemma_dir_deletes_run(job, n - 1);
        let item = all[n - 1];
        let key = parts(item.path);
        let a = all.take(n - 1).filter(p);
        let b = all.take(n).filter(p);
        let d = outcome(disk, job.from, a, Step::DropDir);
        assert(acts.drop_last() =~= rendered(all.take(n - 1), Step::DropDir));
        assert(acts.last() == render(item, Step::DropDir));
        assert(all.take(n).drop_last() =~= all.take(n - 1));
        assert(all.take(n).last() == item);
        lemma_choice_is_prefix(all, p, n - 1);
        lemma_choice_is_prefix(all, p, n);
        let k = a.len() as int;
        if p(item) {
            assert(b =~= a.push(item));
            assert(job.list(6).take(k + 1) == b);
            assert(job.list(6)[k] == b[k]);
            lemma_dir_deletes_work(job, k);
            lemma_step(disk, job.from, job.spared, job.list(6), Step::DropDir, k);
        } else {
            lemma_kept_holder(job, n - 1, k);
            assert(after(d, job.from, job.spared, acts.last()) =~= d);
        }
    }
}

/// The choice from the first items of a list begins the choice from the list.
proof fn lemma_choice_is_prefix(list: Seq<Item>, p: spec_fn(Item) -> bool, n: int)
    requires
        0 <= n <= list.len(),
    ensures
        list.take(n).filter(p).len() <= list.filter(p).len(),
        list.take(n).filter(p) == list.filter(p).take(list.take(n).filter(p).len() as int),
{
    let a = list.take(n);
    let b = list.skip(n);
    assert(a + b =~= list);
    Seq::filter_distributes_over_add(a, b, p);
    assert(list.filter(p).take(a.filter(p).len() as int) =~= a.filter(p));
}

/// A directory that holds something to be spared is there to the end, and so is
/// what it holds.
proof fn lemma_kept_holder(job: Job, n: int, k: int)
    requires
        job.valid(),
        0 <= n < job.all(6).len(),
        0 <= k <= job.list(6).len(),
        !job.is_clear(job.all(6)[n]),
    ensures
        ({
            let key = parts(job.all(6)[n].path);
            let d = outcome(job.stage(6), job.from, job.list(6).take(k), Step::DropDir);
            is_dir_at(d, key) && holds_spared(d, job.spared, key)
        }),
{
    let item = job.all(6)[n];
    let key = parts(item.path);
    let a = job.list(6).take(k);
    let d = outcome(job.stage(6), job.from, a, Step::DropDir);
    let c = |i: Item| is_stale(i, job.src, job.dst) && i.entry.kind is Dir;
    sorted_items_differ(job.dst);
    filter_keeps_different(job.dst, c);
    filter_members(job.dst, c);
    deep_first_orders(stale_dirs(job.dst, job.src, job.dst));
    assert(job.all(6).contains(item));
    assert(stale_dirs(job.dst, job.src, job.dst).contains(item));
    let i = choose|i: int| 0 <= i < job.dst.len() && job.dst[i] == item;
    assert(stands_at(job.dst, i, key));
    lemma_item_at(job.dst, i, key);
    lemma_node(job, key);
    lemma_lists(job, 6, key);
    lemma_target_place(job, key);
    assert(!listed(a, key)) by {
        if listed(a, key) {
            let j = choose|j: int| stands_at(a, j, key);
            assert(stands_at(job.list(6), j, key));
        }
    }
    assert(!covered(a, key)) by {
        if covered(a, key) {
            let j = choose|j: int| 0 <= j < a.len() && below(parts((#[trigger] a[j]).path), key);
            assert(below(parts(job.list(6)[j].path), key));
            lemma_deleted_is_clear(job, key);
        }
    }
    lemma_untouched(job.stage(6), job.from, a, Step::DropDir, key);
    let q = choose|q: Seq<PartView>| #[trigger]
        (job.spared)(q) && below(key, q) && (job.to)(q) is Some;
    assert((job.hidden)(q));
    lemma_node(job, q);
    lemma_spared_place(job, q);
    assert(!covered(a, q)) by {
        if covered(a, q) {
            let j = choose|j: int| 0 <= j < a.len() && below(parts((#[trigger] a[j]).path), q);
            assert(below(parts(job.list(6)[j].path), q));
        }
    }
    lemma_lists(job, 6, q);
    assert(!listed(a, q)) by {
        if listed(a, q) {
            let j = choose|j: int| stands_at(a, j, q);
            assert(stands_at(job.list(6), j, q));
        }
    }
    lemma_untouched(job.stage(6), job.from, a, Step::DropDir, q);
    assert(d(q) is Some);
}

/// Directory metadata can be set: the directory is there.
proof fn lemma_dir_metas_work(job: Job, k: int)
    requires
        job.valid(),
        0 <= k < job.list(7).len(),
    ensures
        works(
            outcome(job.stage(7), job.from, job.list(7).take(k), job.step(7)),
            job.from,
            job.spared,
            render(job.list(7)[k], job.step(7)),
        ),
{
    let list = job.list(7);
    let key = parts(list[k].path);
    let a = list.take(k);
    lemma_entry(job, 7, k);
    lemma_node(job, key);
    lemma_source_place(job, key);
    lemma_first_entries(list, k, key);
    lemma_untouched(job.stage(7), job.from, a, job.step(7), key);
}

/// Each phase takes the target to the next stage.
proof fn lemma_phase_runs(job: Job, n: int)
    requires
        job.valid(),
        0 <= n < 8,
    ensures
        run(job.stage(n), job.from, job.spared, rendered(job.all(n), job.step(n))) == Some(
            job.stage(n + 1),
        ),
{
    if n == 6 {
        lemma_dir_deletes_run(job, job.all(6).len() as int);
        assert(job.all(6).take(job.all(6).len() as int) =~= job.all(6));
    } else {
        lemma_plain_phase_runs(job, n);
    }
}

proof fn lemma_plain_phase_runs(job: Job, n: int)
    requires
        job.valid(),
        0 <= n < 8,
        n != 6,
    ensures
        run(job.stage(n), job.from, job.spared, rendered(job.list(n), job.step(n))) == Some(
            job.stage(n + 1),
        ),
{
    let list = job.list(n);
    lemma_lists(job, n, Seq::empty());
    assert forall|k: int| 0 <= k < list.len() implies works(
        outcome(job.stage(n), job.from, #[trigger] list.take(k), job.step(n)),
        job.from,
        job.spared,
        render(list[k], job.step(n)),
    ) by {
        if n == 0 {
            lemma_conflicts_work(job, k);
        } else if n == 1 {
            lemma_mkdirs_work(job, k);
        } else if n == 2 {
            lemma_copies_work(job, k);
        } else if n == 3 {
            lemma_links_work(job, k);
        } else if n == 4 {
            lemma_modes_work(job, k);
        } else if n == 5 {
            lemma_file_deletes_work(job, k);
        } else {
            lemma_dir_metas_work(job, k);
        }
    }
    if n == 1 {
        assert forall|i: int| 0 <= i < list.len() implies job.stage(n)(
            parts((#[trigger] list[i]).path),
        ) is None by {
            lemma_mkdirs_work(job, i);
        }
    }
    if n == 2 {
        assert forall|i: int| 0 <= i < list.len() implies ({
            &&& (#[trigger] (job.from)(parts(list[i].path))) is Some
            &&& !((job.from)(parts(list[i].path))->0.kind is Dir)
        }) by {
            lemma_copies_work(job, i);
        }
    }
    if n == 3 {
        assert forall|i: int, j: int|
            #![trigger list[i], list[j]]
            0 <= i < list.len() && 0 <= j < list.len() && i != j implies !below(
            parts(list[i].path),
            parts(list[j].path),
        ) by {
            lemma_entry(job, 3, i);
            lemma_entry(job, 3, j);
            let top = parts(list[i].path);
            let place = parts(list[j].path);
            if i < j {
                assert(!same_path(list[i].path, list[j].path));
            } else {
                assert(!same_path(list[j].path, list[i].path));
            }
            if below(top, place) {
                sorted_items_differ(job.src);
                lemma_above_is_dir(job.src, top, place);
            }
        }
    }
    lemma_phase(job.stage(n), job.from, job.spared, list, job.step(n), list.len() as int);
    assert(list.take(list.len() as int) =~= list);
}

/// The whole plan takes the target to the last stage.
proof fn lemma_plan_runs(job: Job)
    requires
        job.valid(),
    ensures
        run(job.to, job.from, job.spared, job.plan()) == Some(job.stage(8)),
{
    let r0 = rendered(job.all(0), job.step(0));
    let r1 = rendered(job.all(1), job.step(1));
    let r2 = rendered(job.all(2), job.step(2));
    let r3 = rendered(job.all(3), job.step(3));
    let r4 = rendered(job.all(4), job.step(4));
    let r5 = rendered(job.all(5), job.step(5));
    let r6 = rendered(job.all(6), job.step(6));
    let r7 = rendered(job.all(7), job.step(7));
    lemma_phase_runs(job, 0);
    lemma_phase_runs(job, 1);
    lemma_phase_runs(job, 2);
    lemma_phase_runs(job, 3);
    lemma_phase_runs(job, 4);
    lemma_phase_runs(job, 5);
    lemma_phase_runs(job, 6);
    lemma_phase_runs(job, 7);
    lemma_run_sum(job.to, job.from, job.spared, r0, r1);
    lemma_run_sum(job.to, job.from, job.spared, r0 + r1, r2);
    lemma_run_sum(job.to, job.from, job.spared, r0 + r1 + r2, r3);
    lemma_run_sum(job.to, job.from, job.spared, r0 + r1 + r2 + r3, r4);
    lemma_run_sum(job.to, job.from, job.spared, r0 + r1 + r2 + r3 + r4, r5);
    lemma_run_sum(job.to, job.from, job.spared, r0 + r1 + r2 + r3 + r4 + r5, r6);
    lemma_run_sum(job.to, job.from, job.spared, r0 + r1 + r2 + r3 + r4 + r5 + r6, r7);
    assert(job.stage(0) == job.to);
    if job.hold {
        lemma_without_deletes(job.src, job.dst, job.tol, job.forced);
        assert(r5 =~= Seq::<ActionView>::empty());
        assert(r6 =~= Seq::<ActionView>::empty());
        assert(r0 + r1 + r2 + r3 + r4 + r5 + r6 =~= r0 + r1 + r2 + r3 + r4);
    }
}

/// Taking the deletions out of a list of steps that are no deletions, or that
/// all are.
proof fn lemma_rendered_without(list: Seq<Item>, step: Step)
    ensures
        without_deletes(rendered(list, step)) == if step is DropFile || step is DropDir {
            Seq::<ActionView>::empty()
        } else {
            rendered(list, step)
        },
    decreases list.len(),
{
    reveal(Seq::filter);
    if list.len() > 0 {
        let acts = rendered(list, step);
        lemma_rendered_without(list.drop_last(), step);
        assert(acts.drop_last() =~= rendered(list.drop_last(), step));
        assert(acts.last() == render(list.last(), step));
        assert(rendered(list.drop_last(), step).push(acts.last()) =~= acts);
    }
}

/// A plan without its deletions is made up of the other phases.
proof fn lemma_without_deletes(src: Seq<Item>, dst: Seq<Item>, tol: i64, forced: Seq<Seq<u8>>)
    ensures
        without_deletes(planned(src, dst, tol, forced)) == rendered(
            phase_list(src, dst, tol, forced, 0),
            phase_step(0),
        ) + rendered(phase_list(src, dst, tol, forced, 1), phase_step(1)) + rendered(
            phase_list(src, dst, tol, forced, 2),
            phase_step(2),
        ) + rendered(phase_list(src, dst, tol, forced, 3), phase_step(3)) + rendered(
            phase_list(src, dst, tol, forced, 4),
            phase_step(4),
        ) + rendered(phase_list(src, dst, tol, forced, 7), phase_step(7)),
{
    let r0 = rendered(phase_list(src, dst, tol, forced, 0), phase_step(0));
    let r1 = rendered(phase_list(src, dst, tol, forced, 1), phase_step(1));
    let r2 = rendered(phase_list(src, dst, tol, forced, 2), phase_step(2));
    let r3 = rendered(phase_list(src, dst, tol, forced, 3), phase_step(3));
    let r4 = rendered(phase_list(src, dst, tol, forced, 4), phase_step(4));
    let r5 = rendered(phase_list(src, dst, tol, forced, 5), phase_step(5));
    let r6 = rendered(phase_list(src, dst, tol, forced, 6), phase_step(6));
    let r7 = rendered(phase_list(src, dst, tol, forced, 7), phase_step(7));
    lemma_rendered_without(phase_list(src, dst, tol, forced, 0), phase_step(0));
    lemma_rendered_without(phase_list(src, dst, tol, forced, 1), phase_step(1));
    lemma_rendered_without(phase_list(src, dst, tol, forced, 2), phase_step(2));
    lemma_rendered_without(phase_list(src, dst, tol, forced, 3), phase_step(3));
    lemma_rendered_without(phase_list(src, dst, tol, forced, 4), phase_step(4));
    lemma_rendered_without(phase_list(src, dst, tol, forced, 5), phase_step(5));
    lemma_rendered_without(phase_list(src, dst, tol, forced, 6), phase_step(6));
    lemma_rendered_without(phase_list(src, dst, tol, forced, 7), phase_step(7));
    lemma_without_sum(r0, r1);
    lemma_without_sum(r0 + r1, r2);
    lemma_without_sum(r0 + r1 + r2, r3);
    lemma_without_sum(r0 + r1 + r2 + r3, r4);
    lemma_without_sum(r0 + r1 + r2 + r3 + r4, r5);
    lemma_without_sum(r0 + r1 + r2 + r3 + r4 + r5, r6);
    lemma_without_sum(r0 + r1 + r2 + r3 + r4 + r5 + r6, r7);
    assert(planned(src, dst, tol, forced) == r0 + r1 + r2 + r3 + r4 + r5 + r6 + r7);
    let front = r0 + r1 + r2 + r3 + r4;
    assert(front + Seq::<ActionView>::empty() =~= front);
}

proof fn lemma_without_sum(a: Seq<ActionView>, b: Seq<ActionView>)
    ensures
        without_deletes(a + b) == without_deletes(a) + without_deletes(b),
{
    Seq::filter_distributes_over_add(a, b, |x: ActionView| !deletes(x));
}

/// A joined list holds the items of both lists.
proof fn lemma_sum_holds(a: Seq<Item>, b: Seq<Item>, x: Item)
    requires
        a.contains(x) || b.contains(x),
    ensures
        (a + b).contains(x),
{
    if a.contains(x) {
        let i = choose|i: int| 0 <= i < a.len() && a[i] == x;
        assert((a + b)[i] == x);
    } else {
        let i = choose|i: int| 0 <= i < b.len() && b[i] == x;
        assert((a + b)[a.len() + i] == x);
    }
}

/// What a phase creates, replaces or removes counts as changed.
proof fn lemma_counts_as_changed(job: Job, n: int, j: int)
    requires
        job.valid(),
        0 <= n < 7,
        n != 4,
        0 <= j < job.list(n).len(),
    ensures
        changed(job.src, job.dst, job.tol, job.forced).contains(job.list(n)[j]),
{
    let x = job.list(n)[j];
    assert(job.list(n).contains(x));
    let c0 = conflicts(job.src, job.dst);
    let c1 = new_dirs(job.src, job.dst);
    let c2 = stale_files(job.dst, job.src, job.dst);
    let c3 = stale_dirs(job.dst, job.src, job.dst);
    let c4 = copies(job.src, job.dst, job.tol, job.forced);
    let c5 = new_links(job.src, job.dst, job.tol);
    if n == 1 {
        sorted_items_differ(job.src);
        filter_keeps_different(
            job.src,
            |i: Item| i.entry.kind is Dir && !matched(i.entry, lookup(job.dst, i.path)),
        );
        shallow_first_orders(c1);
    }
    if n == 6 {
        sorted_items_differ(job.dst);
        filter_keeps_different(
            job.dst,
            |i: Item| is_stale(i, job.src, job.dst) && i.entry.kind is Dir,
        );
        deep_first_orders(c3);
        filter_members(job.all(6), |i: Item| job.is_clear(i));
        if job.hold {
            reveal(Seq::filter);
        }
    }
    if n == 0 || n == 1 {
        lemma_sum_holds(c0, c1, x);
    }
    if n == 0 || n == 1 || n == 5 {
        lemma_sum_holds(c0 + c1, c2, x);
    }
    if n == 0 || n == 1 || n == 5 || n == 6 {
        lemma_sum_holds(c0 + c1 + c2, c3, x);
    }
    if n != 3 {
        lemma_sum_holds(c0 + c1 + c2 + c3, c4, x);
    }
    lemma_sum_holds(c0 + c1 + c2 + c3 + c4, c5, x);
}

/// A directory of the source that no phase stirs.
proof fn lemma_calm(job: Job, n: int, place: Seq<PartView>)
    requires
        job.valid(),
        0 <= n < 7,
        n != 4,
        listed(job.src, place),
        !holds_child(
            changed(job.src, job.dst, job.tol, job.forced),
            item_at(job.src, place).path,
        ),
    ensures
        !holds_listed(job.list(n), place),
{
    let list = job.list(n);
    let path = item_at(job.src, place).path;
    let all = changed(job.src, job.dst, job.tol, job.forced);
    if holds_listed(list, place) {
        let j = choose|j: int|
            0 <= j < list.len() && directly_holds(place, parts((#[trigger] list[j]).path));
        let child = list[j].path;
        lemma_node(job, place);
        lemma_entry(job, n, j);
        let d = depth(child) as int;
        assert(parts(child).last() != PartView::Root) by {
            if parts(child)[d - 1] == PartView::Root {
                root_comes_first(child, d - 1);
            }
        }
        parent_drops_last_part(child);
        let p = parent_of(child)->0;
        assert(p.len() > 0) by {
            if p.len() == 0 {
                empty_path_has_no_parts();
                assert(p =~= Seq::<u8>::empty());
            }
        }
        assert(is_parent(path, child));
        lemma_counts_as_changed(job, n, j);
        let k = choose|k: int| 0 <= k < all.len() && all[k] == list[j];
        assert(is_parent(path, all[k].path));
        assert(holds_child(all, path));
    }
}

/// The directories that keep their metadata keep it to the end.
proof fn lemma_kept_dir(job: Job, place: Seq<PartView>)
    requires
        job.valid(),
        listed(job.src, place),
        item_at(job.src, place).entry.kind is Dir,
        !job.wants(7, item_at(job.src, place)),
    ensures
        job.stage(8)(place) == (job.to)(place),
{
    let i = item_at(job.src, place);
    lemma_node(job, place);
    lemma_source_place(job, place);
    lemma_lists(job, 0, place);
    lemma_lists(job, 1, place);
    lemma_lists(job, 2, place);
    lemma_lists(job, 3, place);
    lemma_lists(job, 4, place);
    lemma_removals_spare(job, place);
    if covered(job.list(0), place) {
        lemma_conflicts_spare(job, place);
    }
    lemma_links_spare(job, place);
    lemma_calm(job, 0, place);
    lemma_untouched(job.stage(0), job.from, job.list(0), job.step(0), place);
    lemma_calm(job, 1, place);
    lemma_untouched(job.stage(1), job.from, job.list(1), job.step(1), place);
    lemma_calm(job, 2, place);
    lemma_untouched(job.stage(2), job.from, job.list(2), job.step(2), place);
    lemma_calm(job, 3, place);
    lemma_untouched(job.stage(3), job.from, job.list(3), job.step(3), place);
    lemma_untouched(job.stage(4), job.from, job.list(4), job.step(4), place);
    lemma_calm(job, 5, place);
    lemma_untouched(job.stage(5), job.from, job.list(5), job.step(5), place);
    lemma_calm(job, 6, place);
    lemma_untouched(job.stage(6), job.from, job.list(6), job.step(6), place);
    assert(job.stage(0)(place) == (job.to)(place));
}

// ---------------------------------------------------------------------------
// The laws
// ---------------------------------------------------------------------------

/// The time is the wanted one, or lies within tolerance of it.
pub open spec fn in_time(wanted: i64, found: Option<i64>, tol: i64) -> bool {
    found matches Some(t) && (t == wanted || gap(wanted, t) <= tol)
}

/// The node is a mirror of the source entry.
pub open spec fn reflects(entry: EntryView, node: Option<Node>, tol: i64) -> bool {
    match node {
        Some(n) => {
            &&& same_type(entry.kind, n.kind)
            &&& in_time(entry.mtime, n.mtime, tol)
            &&& entry.kind is File ==> n.size == entry.size && n.mode == Some(entry.mode)
            &&& entry.kind is Dir ==> n.mode == Some(entry.mode)
            &&& entry.kind matches KindView::Symlink(target) ==> same_path(
                n.kind->Symlink_0,
                target,
            )
        },
        None => false,
    }
}

/// The disk mirrors the source: each entry is reflected, and but for the hidden
/// places and the directories that hold something to be spared there is nothing
/// else.
pub open spec fn mirrors(
    src: Seq<Item>,
    disk: Disk,
    hidden: Places,
    spared: Places,
    tol: i64,
) -> bool {
    &&& forall|i: int|
        0 <= i < src.len() ==> reflects(
            (#[trigger] src[i]).entry,
            disk(parts(src[i].path)),
            tol,
        )
    &&& forall|place: Seq<PartView>|
        (#[trigger] disk(place)) is Some && !hidden(place) ==> listed(src, place) || (is_dir_at(
            disk,
            place,
        ) && holds_spared(disk, spared, place))
}

/// Two trees, scanned from two disks. Hidden places, such as excluded ones and
/// those of special files, are in neither tree; the excluded ones among them are
/// to be spared. The source may hold more than was read.
pub open spec fn scanned(
    src: Seq<Item>,
    dst: Seq<Item>,
    from: Disk,
    to: Disk,
    hidden: Places,
    spared: Places,
) -> bool {
    &&& ascending(paths_of(src))
    &&& ascending(paths_of(dst))
    &&& nested(src)
    &&& nested(dst)
    &&& records(from, src)
    &&& avoids(src, hidden)
    &&& is_scan(to, dst, hidden)
    &&& grounded(to)
    &&& forall|place: Seq<PartView>| #[trigger] spared(place) ==> hidden(place)
}

/// Each action of a plan can be carried out when its turn comes, and
/// afterwards the target mirrors the source: it holds the same paths, of the
/// same types, with the same sizes, link targets and permissions, and with
/// mtimes within tolerance. Directories that the source lacks stay only if they
/// hold something that is to be spared. A file holds the source's contents, unless it counted
/// as unchanged and no copy was forced: then it is as it was. A conflict must
/// not hold anything that is to be spared: its removal is refused.
pub proof fn plan_makes_a_mirror(
    src: Seq<Item>,
    dst: Seq<Item>,
    tol: i64,
    forced: Seq<Seq<u8>>,
    from: Disk,
    to: Disk,
    hidden: Places,
    spared: Places,
)
    requires
        scanned(src, dst, from, to, hidden, spared),
        conflicts_are_clear(src, dst, to, spared),
    ensures
        run(to, from, spared, planned(src, dst, tol, forced)) is Some,
        mirrors(src, run(to, from, spared, planned(src, dst, tol, forced))->0, hidden, spared, tol),
        forall|i: int|
            0 <= i < src.len() && (#[trigger] src[i]).entry.kind is File ==> ({
                let place = parts(src[i].path);
                let d = lookup(dst, src[i].path);
                run(to, from, spared, planned(src, dst, tol, forced))->0(place)->0.data == if stays(
                    src[i].entry,
                    d,
                    tol,
                    holds(forced, src[i].path),
                ) {
                    to(place)->0.data
                } else {
                    from(place)->0.data
                }
            }),
{
    let job = Job { src, dst, tol, forced, from, to, hidden, spared, hold: false };
    lemma_plan_runs(job);
    let disk = job.stage(8);
    assert forall|place: Seq<PartView>|
        (#[trigger] disk(place)) is Some && !hidden(place) implies listed(src, place) || (is_dir_at(
        disk,
        place,
    ) && holds_spared(disk, spared, place)) by {
        if !listed(src, place) {
            if listed(dst, place) {
                lemma_target_place(job, place);
                lemma_node(job, place);
                if !job.is_clear(item_at(dst, place)) {
                    let q = choose|q: Seq<PartView>| #[trigger]
                        spared(q) && below(place, q) && to(q) is Some;
                    lemma_spared_place(job, q);
                    assert(disk(q) is Some);
                }
            } else {
                lemma_empty_place(job, place);
            }
        }
    }
    assert forall|i: int| 0 <= i < src.len() implies reflects(
        (#[trigger] src[i]).entry,
        disk(parts(src[i].path)),
        tol,
    ) && (src[i].entry.kind is File ==> disk(parts(src[i].path))->0.data == if stays(
        src[i].entry,
        lookup(dst, src[i].path),
        tol,
        holds(forced, src[i].path),
    ) {
        to(parts(src[i].path))->0.data
    } else {
        from(parts(src[i].path))->0.data
    }) by {
        let place = parts(src[i].path);
        sorted_items_differ(src);
        assert(stands_at(src, i, place));
        lemma_item_at(src, i, place);
        lemma_node(job, place);
        lemma_source_place(job, place);
        if src[i].entry.kind is Dir && !job.wants(7, src[i]) {
            lemma_kept_dir(job, place);
        }
    }
}

/// Once every file whose contents differ is copied, whatever its size and
/// mtime say, the target holds exactly the contents of the source.
pub proof fn checked_plan_mirrors_contents(
    src: Seq<Item>,
    dst: Seq<Item>,
    tol: i64,
    forced: Seq<Seq<u8>>,
    from: Disk,
    to: Disk,
    hidden: Places,
    spared: Places,
)
    requires
        scanned(src, dst, from, to, hidden, spared),
        conflicts_are_clear(src, dst, to, spared),
        forall|i: int|
            0 <= i < src.len() && stays(
                (#[trigger] src[i]).entry,
                lookup(dst, src[i].path),
                tol,
                false,
            ) && from(parts(src[i].path))->0.data != to(parts(src[i].path))->0.data ==> holds(
                forced,
                src[i].path,
            ),
    ensures
        run(to, from, spared, planned(src, dst, tol, forced)) is Some,
        mirrors(src, run(to, from, spared, planned(src, dst, tol, forced))->0, hidden, spared, tol),
        forall|i: int|
            0 <= i < src.len() && (#[trigger] src[i]).entry.kind is File ==> run(
                to,
                from,
                spared,
                planned(src, dst, tol, forced),
            )->0(parts(src[i].path))->0.data == from(parts(src[i].path))->0.data,
{
    plan_makes_a_mirror(src, dst, tol, forced, from, to, hidden, spared);
}

/// A checksum run: every file that counts as unchanged is hashed on both sides,
/// and those whose hashes differ are copied. As long as no two different
/// contents have the same hash, the target then holds exactly the contents of
/// the source.
pub proof fn checksum_run_mirrors_contents(
    src: Seq<Item>,
    dst: Seq<Item>,
    tol: i64,
    candidates: Seq<Seq<u8>>,
    differs: Seq<bool>,
    forced: Seq<Seq<u8>>,
    from: Disk,
    to: Disk,
    hidden: Places,
    spared: Places,
)
    requires
        scanned(src, dst, from, to, hidden, spared),
        conflicts_are_clear(src, dst, to, spared),
        candidates == paths_of(unchanged_files(src, dst, tol)),
        differs.len() == candidates.len(),
        forall|k: int|
            0 <= k < candidates.len() ==> #[trigger] differs[k] == (blake3_hash(
                from(parts(candidates[k]))->0.data,
            ) != blake3_hash(to(parts(candidates[k]))->0.data)),
        forall|k: int|
            0 <= k < candidates.len() && from(parts(#[trigger] candidates[k]))->0.data != to(
                parts(candidates[k]),
            )->0.data ==> blake3_hash(from(parts(candidates[k]))->0.data) != blake3_hash(
                to(parts(candidates[k]))->0.data,
            ),
        forall|q: Seq<u8>| #[trigger]
            holds(forced, q) == exists|k: int|
                #![trigger candidates[k]]
                0 <= k < candidates.len() && differs[k] && same_path(q, candidates[k]),
    ensures
        run(to, from, spared, planned(src, dst, tol, forced)) is Some,
        mirrors(src, run(to, from, spared, planned(src, dst, tol, forced))->0, hidden, spared, tol),
        forall|i: int|
            0 <= i < src.len() && (#[trigger] src[i]).entry.kind is File ==> run(
                to,
                from,
                spared,
                planned(src, dst, tol, forced),
            )->0(parts(src[i].path))->0.data == from(parts(src[i].path))->0.data,
{
    let p = |i: Item| stays(i.entry, lookup(dst, i.path), tol, false);
    let list = unchanged_files(src, dst, tol);
    filter_members(src, p);
    assert forall|i: int|
        0 <= i < src.len() && stays(
            (#[trigger] src[i]).entry,
            lookup(dst, src[i].path),
            tol,
            false,
        ) && from(parts(src[i].path))->0.data != to(parts(src[i].path))->0.data implies holds(
        forced,
        src[i].path,
    ) by {
        assert(src.contains(src[i]) && p(src[i]));
        assert(list.contains(src[i]));
        let k = choose|k: int| 0 <= k < list.len() && list[k] == src[i];
        assert(candidates[k] == src[i].path);
        assert(differs[k]);
        assert(same_path(src[i].path, candidates[k]));
    }
    checked_plan_mirrors_contents(src, dst, tol, forced, from, to, hidden, spared);
}

/// Each of the files can be copied.
pub open spec fn can_be_copied(disk: Disk, from: Disk, list: Seq<Item>) -> bool {
    &&& all_different(list)
    &&& forall|i: int|
        0 <= i < list.len() ==> {
            let place = parts((#[trigger] list[i]).path);
            &&& from(place) matches Some(n) && n.kind is File
            &&& has_room(disk, place)
            &&& !is_dir_at(disk, place)
        }
}

/// Files that are copied side by side give the same target as files that are
/// copied one after the other, in whichever order: none of the copies fails, and
/// nothing tells which came first.
pub proof fn copies_go_in_any_order(
    disk: Disk,
    from: Disk,
    spared: Places,
    a: Seq<Item>,
    b: Seq<Item>,
)
    requires
        can_be_copied(disk, from, a),
        can_be_copied(disk, from, b),
        forall|x: Item| #[trigger] a.contains(x) <==> b.contains(x),
    ensures
        run(disk, from, spared, rendered(a, Step::Copy)) is Some,
        run(disk, from, spared, rendered(a, Step::Copy)) == run(
            disk,
            from,
            spared,
            rendered(b, Step::Copy),
        ),
{
    lemma_copies_run(disk, from, spared, a);
    lemma_copies_run(disk, from, spared, b);
    let c = outcome(disk, from, a, Step::Copy);
    let d = outcome(disk, from, b, Step::Copy);
    assert forall|place: Seq<PartView>| #[trigger] c(place) == d(place) by {
        lemma_reordered(a, b, place);
    }
    assert(c =~= d);
}

proof fn lemma_copies_run(disk: Disk, from: Disk, spared: Places, list: Seq<Item>)
    requires
        can_be_copied(disk, from, list),
    ensures
        run(disk, from, spared, rendered(list, Step::Copy)) == Some(
            outcome(disk, from, list, Step::Copy),
        ),
{
    assert forall|i: int| 0 <= i < list.len() implies works(
        outcome(disk, from, #[trigger] list.take(i), Step::Copy),
        from,
        spared,
        render(list[i], Step::Copy),
    ) by {
        let key = parts(list[i].path);
        let a = list.take(i);
        lemma_first_entries(list, i, key);
        lemma_untouched(disk, from, a, Step::Copy, key);
        if key.len() > 1 {
            let up = key.drop_last();
            assert(!listed(a, up)) by {
                if listed(a, up) {
                    let j = choose|j: int| stands_at(a, j, up);
                    assert(list[j] == a[j]);
                    assert(!is_dir_at(disk, parts(list[j].path)));
                }
            }
            lemma_untouched(disk, from, a, Step::Copy, up);
        }
    }
    assert forall|i: int| 0 <= i < list.len() implies ({
        &&& (#[trigger] from(parts(list[i].path))) is Some
        &&& !(from(parts(list[i].path))->0.kind is Dir)
    }) by {
        assert(from(parts(list[i].path)) is Some);
    }
    lemma_phase(disk, from, spared, list, Step::Copy, list.len() as int);
    assert(list.take(list.len() as int) =~= list);
}

/// The directories on the way to whatever stands on a disk stand there too.
proof fn lemma_dirs_on_disk(disk: Disk, place: Seq<PartView>, m: int)
    requires
        grounded(disk),
        disk(place) is Some,
        0 < m < place.len(),
    ensures
        is_dir_at(disk, place.take(m)),
    decreases place.len() - m,
{
    if m + 1 < place.len() {
        lemma_dirs_on_disk(disk, place, m + 1);
        assert(disk(place.take(m + 1)) is Some);
        assert(place.take(m + 1).drop_last() =~= place.take(m));
    } else {
        assert(place.drop_last() =~= place.take(m));
    }
}

/// The disk once the actions have been tried one after the other. What cannot
/// be carried out is skipped, and so is what fails for a reason of its own.
pub open spec fn carry_out(
    disk: Disk,
    from: Disk,
    spared: Places,
    actions: Seq<ActionView>,
    fails: spec_fn(int) -> bool,
) -> Disk
    decreases actions.len(),
{
    if actions.len() == 0 {
        disk
    } else {
        let d = carry_out(disk, from, spared, actions.drop_last(), fails);
        if !fails(actions.len() - 1) && works(d, from, spared, actions.last()) {
            after(d, from, spared, actions.last())
        } else {
            d
        }
    }
}

/// Where every action can be carried out and none fails, trying them is running
/// them.
pub proof fn runs_are_carried_out(
    disk: Disk,
    from: Disk,
    spared: Places,
    actions: Seq<ActionView>,
)
    requires
        run(disk, from, spared, actions) is Some,
    ensures
        carry_out(disk, from, spared, actions, |k: int| false) == run(
            disk,
            from,
            spared,
            actions,
        )->0,
    decreases actions.len(),
{
    if actions.len() > 0 {
        runs_are_carried_out(disk, from, spared, actions.drop_last());
    }
}

/// Whatever actions are tried, and whichever of them fail: what stands at a
/// spared place stays as it is, but for the mtime of a directory, as long as no
/// action names a spared place.
pub proof fn spared_places_outlast_actions(
    disk: Disk,
    from: Disk,
    spared: Places,
    actions: Seq<ActionView>,
    fails: spec_fn(int) -> bool,
    place: Seq<PartView>,
)
    requires
        spared(place),
        disk(place) is Some,
        forall|k: int| 0 <= k < actions.len() ==> !spared(parts(named(#[trigger] actions[k]))),
    ensures
        ({
            let d = carry_out(disk, from, spared, actions, fails);
            d(place) == disk(place) || d(place) == moved(disk(place))
        }),
    decreases actions.len(),
{
    if actions.len() > 0 {
        let rest = actions.drop_last();
        let last = actions.last();
        assert(forall|k: int| 0 <= k < rest.len() ==> rest[k] == actions[k]);
        spared_places_outlast_actions(disk, from, spared, rest, fails, place);
        let d = carry_out(disk, from, spared, rest, fails);
        assert(last == actions[actions.len() - 1]);
        let key = parts(named(last));
        assert(place != key);
        if works(d, from, spared, last) && below(key, place) {
            assert(spared(place) && d(place) is Some);
        }
    }
}

/// Excluded entries of the target outlive a run as they are, but for the mtime of
/// a directory in which something changed. It does not matter which actions
/// fail, nor whether deletions are held back, nor what else the target holds.
pub proof fn excluded_entries_survive(
    src: Seq<Item>,
    dst: Seq<Item>,
    tol: i64,
    forced: Seq<Seq<u8>>,
    from: Disk,
    to: Disk,
    spared: Places,
    fails: spec_fn(int) -> bool,
    place: Seq<PartView>,
)
    requires
        ascending(paths_of(src)),
        ascending(paths_of(dst)),
        avoids(src, spared),
        avoids(dst, spared),
        spared(place),
        to(place) is Some,
    ensures
        ({
            let plan = planned(src, dst, tol, forced);
            let disk = carry_out(to, from, spared, plan, fails);
            let held_back = carry_out(to, from, spared, without_deletes(plan), fails);
            &&& disk(place) == to(place) || disk(place) == moved(to(place))
            &&& held_back(place) == to(place) || held_back(place) == moved(to(place))
        }),
{
    let plan = planned(src, dst, tol, forced);
    let less = without_deletes(plan);
    assert forall|k: int| 0 <= k < plan.len() implies !spared(
        parts(named(#[trigger] plan[k])),
    ) by {
        actions_spell_paths_as_recorded(src, dst, tol, forced, k);
    }
    assert forall|k: int| 0 <= k < less.len() implies !spared(
        parts(named(#[trigger] less[k])),
    ) by {
        held_back_plans_delete_nothing_extraneous(plan, k);
        let i = choose|i: int| 0 <= i < plan.len() && plan[i] == less[k];
        assert(!spared(parts(named(plan[i]))));
    }
    spared_places_outlast_actions(to, from, spared, plan, fails, place);
    spared_places_outlast_actions(to, from, spared, less, fails, place);
}

/// The entry is what a scan may record of the node.
pub open spec fn may_show(node: Option<Node>, entry: EntryView) -> bool {
    match node {
        Some(n) => {
            &&& n.kind == entry.kind
            &&& n.size == entry.size
            &&& n.mtime matches Some(t) ==> t == entry.mtime
            &&& n.mode matches Some(m) ==> m == entry.mode
        },
        None => false,
    }
}

/// The tree records what stands on the disk, as far as that is known and not
/// hidden.
pub open spec fn may_scan(disk: Disk, tree: Seq<Item>, hidden: Places) -> bool {
    &&& forall|i: int|
        0 <= i < tree.len() ==> may_show(disk(parts((#[trigger] tree[i]).path)), tree[i].entry)
    &&& avoids(tree, hidden)
    &&& forall|place: Seq<PartView>|
        (#[trigger] disk(place)) is Some && !hidden(place) ==> listed(tree, place)
}

/// A second run finds nothing to do: a target that mirrors the source, without
/// any directory of its own that holds something to be spared, needs no action.
pub proof fn mirror_needs_no_action(
    src: Seq<Item>,
    again: Seq<Item>,
    tol: i64,
    disk: Disk,
    hidden: Places,
    spared: Places,
)
    requires
        ascending(paths_of(src)),
        ascending(paths_of(again)),
        tol >= 0,
        avoids(src, hidden),
        mirrors(src, disk, hidden, spared, tol),
        forall|place: Seq<PartView>|
            (#[trigger] disk(place)) is Some && !hidden(place) ==> listed(src, place),
        may_scan(disk, again, hidden),
    ensures
        planned(src, again, tol, Seq::empty()).len() == 0,
{
    sorted_items_differ(src);
    sorted_items_differ(again);
    assert forall|q: Seq<u8>| !#[trigger] holds(Seq::<Seq<u8>>::empty(), q) by {}
    assert forall|i: int| 0 <= i < src.len() implies settled(#[trigger] src[i], again, tol) by {
        let place = parts(src[i].path);
        assert(reflects(src[i].entry, disk(place), tol));
        assert(listed(again, place));
        let j = choose|j: int| stands_at(again, j, place);
        assert(may_show(disk(parts(again[j].path)), again[j].entry));
        lookup_at(again, j, src[i].path);
    }
    assert forall|j: int| 0 <= j < again.len() implies lookup(
        src,
        (#[trigger] again[j]).path,
    ) is Some by {
        let place = parts(again[j].path);
        assert(may_show(disk(place), again[j].entry));
        assert(listed(src, place));
        let i = choose|i: int| stands_at(src, i, place);
        lookup_at(src, i, again[j].path);
    }
    assert(agree(src, again, tol));
    empty_plan_means_agreement(src, again, tol, Seq::empty());
}

/// Where directories stay because they hold something to be spared, a second run
/// does no more than try to delete them again, and set directory metadata.
pub proof fn second_run_only_retries_directories(
    src: Seq<Item>,
    again: Seq<Item>,
    tol: i64,
    disk: Disk,
    hidden: Places,
    spared: Places,
    k: int,
)
    requires
        ascending(paths_of(src)),
        ascending(paths_of(again)),
        tol >= 0,
        avoids(src, hidden),
        mirrors(src, disk, hidden, spared, tol),
        may_scan(disk, again, hidden),
        0 <= k < planned(src, again, tol, Seq::empty()).len(),
    ensures
        ({
            let action = planned(src, again, tol, Seq::empty())[k];
            action is SetDirMeta || (action is DeleteDir && holds_spared(
                disk,
                spared,
                parts(named(action)),
            ))
        }),
{
    let forced = Seq::<Seq<u8>>::empty();
    let plan = planned(src, again, tol, forced);
    assert forall|q: Seq<u8>| !#[trigger] holds(forced, q) by {}
    assert forall|i: int| 0 <= i < src.len() implies settled(#[trigger] src[i], again, tol) by {
        let place = parts(src[i].path);
        assert(reflects(src[i].entry, disk(place), tol));
        assert(listed(again, place));
        let j = choose|j: int| stands_at(again, j, place);
        assert(may_show(disk(parts(again[j].path)), again[j].entry));
        lookup_at(again, j, src[i].path);
    }
    assert forall|j: int|
        0 <= j < again.len() && lookup(src, (#[trigger] again[j]).path) is None implies {
        &&& again[j].entry.kind is Dir
        &&& holds_spared(disk, spared, parts(again[j].path))
    } by {
        let place = parts(again[j].path);
        assert(may_show(disk(place), again[j].entry));
        if listed(src, place) {
            let i = choose|i: int| stands_at(src, i, place);
            lookup_at(src, i, again[j].path);
        }
    }
    let p0 = |i: Item| blocked(i.entry, lookup(again, i.path));
    let p1 = |i: Item| i.entry.kind is Dir && !matched(i.entry, lookup(again, i.path));
    let p2 = |i: Item|
        i.entry.kind is File && !stays(
            i.entry,
            lookup(again, i.path),
            tol,
            holds(forced, i.path),
        );
    let p3 = |i: Item|
        i.entry.kind is Symlink && !link_in_sync(i.entry, lookup(again, i.path), tol);
    let p4 = |i: Item|
        stays(i.entry, lookup(again, i.path), tol, holds(forced, i.path)) && i.entry.mode
            != lookup(again, i.path)->0.mode;
    let p5 = |i: Item| is_stale(i, src, again) && !(i.entry.kind is Dir);
    lemma_nothing_chosen(src, p0);
    lemma_nothing_chosen(src, p1);
    lemma_nothing_chosen(src, p2);
    lemma_nothing_chosen(src, p3);
    lemma_nothing_chosen(src, p4);
    lemma_nothing_chosen(again, p5);
    sorted_items_differ(again);
    shallow_first_orders(new_dirs(src, again));
    assert(shallow_first(new_dirs(src, again)).len() == 0) by {
        if shallow_first(new_dirs(src, again)).len() > 0 {
            let x = shallow_first(new_dirs(src, again))[0];
            assert(shallow_first(new_dirs(src, again)).contains(x));
        }
    }
    let r6 = rendered(deep_first(stale_dirs(again, src, again)), Step::DropDir);
    let r7 = rendered(deep_first(dir_metas(src, again, tol, forced)), Step::DirMeta);
    assert(plan =~= r6 + r7);
    if k < r6.len() {
        let c = |i: Item| is_stale(i, src, again) && i.entry.kind is Dir;
        let list = deep_first(stale_dirs(again, src, again));
        filter_keeps_different(again, c);
        filter_members(again, c);
        deep_first_orders(stale_dirs(again, src, again));
        assert(list.contains(list[k]));
        assert(stale_dirs(again, src, again).contains(list[k]));
        let j = choose|j: int| 0 <= j < again.len() && again[j] == list[k];
        assert(lookup(src, again[j].path) is None);
    }
}

proof fn lemma_nothing_chosen(list: Seq<Item>, p: spec_fn(Item) -> bool)
    requires
        forall|i: int| 0 <= i < list.len() ==> !p(#[trigger] list[i]),
    ensures
        list.filter(p).len() == 0,
{
    filter_members(list, p);
    if list.filter(p).len() > 0 {
        assert(list.filter(p).contains(list.filter(p)[0]));
    }
}

/// Carrying out a plan and planning again gives no action. A directory that had
/// to go and stayed, because it holds something to be spared, is planned for
/// again.
pub proof fn second_run_is_idle(
    src: Seq<Item>,
    dst: Seq<Item>,
    tol: i64,
    forced: Seq<Seq<u8>>,
    from: Disk,
    to: Disk,
    hidden: Places,
    spared: Places,
    again: Seq<Item>,
)
    requires
        scanned(src, dst, from, to, hidden, spared),
        conflicts_are_clear(src, dst, to, spared),
        forall|place: Seq<PartView>|
            (#[trigger] spared(place)) && to(place) is Some ==> !covered(
                stale_dirs(dst, src, dst),
                place,
            ),
        tol >= 0,
        ascending(paths_of(again)),
        run(to, from, spared, planned(src, dst, tol, forced)) matches Some(disk) && may_scan(
            disk,
            again,
            hidden,
        ),
    ensures
        planned(src, again, tol, Seq::empty()).len() == 0,
{
    let disk = run(to, from, spared, planned(src, dst, tol, forced))->0;
    let job = Job { src, dst, tol, forced, from, to, hidden, spared, hold: false };
    plan_makes_a_mirror(src, dst, tol, forced, from, to, hidden, spared);
    lemma_plan_runs(job);
    assert forall|place: Seq<PartView>|
        (#[trigger] disk(place)) is Some && !hidden(place) implies listed(src, place) by {
        if !listed(src, place) {
            if listed(dst, place) {
                lemma_target_place(job, place);
                lemma_node(job, place);
                let x = item_at(dst, place);
                if !job.is_clear(x) && x.entry.kind is Dir && !covered(job.list(0), place) {
                    let c = |i: Item| is_stale(i, src, dst) && i.entry.kind is Dir;
                    let q = choose|q: Seq<PartView>| #[trigger]
                        spared(q) && below(place, q) && to(q) is Some;
                    sorted_items_differ(dst);
                    lemma_listed_filter(dst, c, place);
                    let list = stale_dirs(dst, src, dst);
                    let j = choose|j: int| stands_at(list, j, place);
                    assert(below(parts(list[j].path), q));
                }
            } else {
                lemma_empty_place(job, place);
            }
        }
    }
    mirror_needs_no_action(src, again, tol, disk, hidden, spared);
}

/// Where deletions are held back, the run still brings over all that was read,
/// and every extraneous entry of the target stays as it is, but for the mtime
/// of a directory in which something changed. Only what is in the way of a
/// source entry of another type goes.
pub proof fn held_back_run_keeps_extraneous_entries(
    src: Seq<Item>,
    dst: Seq<Item>,
    tol: i64,
    forced: Seq<Seq<u8>>,
    from: Disk,
    to: Disk,
    hidden: Places,
    spared: Places,
)
    requires
        scanned(src, dst, from, to, hidden, spared),
        conflicts_are_clear(src, dst, to, spared),
    ensures
        run(to, from, spared, without_deletes(planned(src, dst, tol, forced))) matches Some(disk) && {
            &&& forall|i: int|
                0 <= i < src.len() ==> reflects(
                    (#[trigger] src[i]).entry,
                    disk(parts(src[i].path)),
                    tol,
                )
            &&& forall|place: Seq<PartView>|
                listed(dst, place) && !listed(src, place) && !covered(conflicts(src, dst), place)
                    ==> #[trigger] disk(place) == to(place) || disk(place) == moved(to(place))
        },
{
    let job = Job { src, dst, tol, forced, from, to, hidden, spared, hold: true };
    lemma_plan_runs(job);
    let disk = job.stage(8);
    assert forall|i: int| 0 <= i < src.len() implies reflects(
        (#[trigger] src[i]).entry,
        disk(parts(src[i].path)),
        tol,
    ) by {
        let place = parts(src[i].path);
        sorted_items_differ(src);
        assert(stands_at(src, i, place));
        lemma_item_at(src, i, place);
        lemma_node(job, place);
        lemma_source_place(job, place);
        if src[i].entry.kind is Dir && !job.wants(7, src[i]) {
            lemma_kept_dir(job, place);
        }
    }
    assert forall|place: Seq<PartView>|
        listed(dst, place) && !listed(src, place) && !covered(
            conflicts(src, dst),
            place,
        ) implies #[trigger] disk(place) == to(place) || disk(place) == moved(to(place)) by {
        lemma_target_place(job, place);
    }
}

/// What does not count as going stays: every entry of the target that a run does
/// not count still stands there afterwards, with its type, whether deletions are
/// held back or not.
pub proof fn uncounted_entries_stay(
    src: Seq<Item>,
    dst: Seq<Item>,
    tol: i64,
    forced: Seq<Seq<u8>>,
    from: Disk,
    to: Disk,
    hidden: Places,
    spared: Places,
    j: int,
)
    requires
        scanned(src, dst, from, to, hidden, spared),
        conflicts_are_clear(src, dst, to, spared),
        0 <= j < dst.len(),
    ensures
        ({
            let plan = planned(src, dst, tol, forced);
            let place = parts(dst[j].path);
            let kind = dst[j].entry.kind;
            &&& run(to, from, spared, plan) matches Some(disk) && (!gone(src, dst).contains(dst[j])
                ==> disk(place) is Some && same_type(kind, disk(place)->0.kind))
            &&& run(to, from, spared, without_deletes(plan)) matches Some(disk) && (!gone_anyway(
                src,
                dst,
            ).contains(dst[j]) ==> disk(place) is Some && same_type(kind, disk(place)->0.kind))
        }),
{
    let plan = planned(src, dst, tol, forced);
    let item = dst[j];
    let place = parts(item.path);
    plan_makes_a_mirror(src, dst, tol, forced, from, to, hidden, spared);
    held_back_run_keeps_extraneous_entries(src, dst, tol, forced, from, to, hidden, spared);
    filter_members(dst, |i: Item| is_gone(i, src));
    filter_members(dst, |i: Item| is_gone(i, src) && !is_stale(i, src, dst));
    assert(dst.contains(item));
    let less = run(to, from, spared, without_deletes(plan))->0;
    if !is_gone(item, src) {
        let i = lookup_is_somewhere(src, item.path);
        assert(reflects(src[i].entry, run(to, from, spared, plan)->0(parts(src[i].path)), tol));
        assert(reflects(src[i].entry, less(parts(src[i].path)), tol));
    } else if is_stale(item, src, dst) {
        let job = Job { src, dst, tol, forced, from, to, hidden, spared, hold: true };
        assert(shows(to(place), item.entry));
        sorted_items_differ(dst);
        assert(stands_at(dst, j, place));
        lemma_item_at(dst, j, place);
        assert(!listed(src, place)) by {
            if listed(src, place) {
                let i = choose|i: int| stands_at(src, i, place);
                lookup_at(src, i, item.path);
            }
        }
        lemma_under_conflict(job, place);
        assert(less(place) == to(place) || less(place) == moved(to(place)));
    }
}

/// Carrying out an action that works leaves nothing without its directory.
proof fn lemma_stays_grounded(disk: Disk, from: Disk, spared: Places, action: ActionView)
    requires
        grounded(disk),
        works(disk, from, spared, action),
    ensures
        grounded(after(disk, from, spared, action)),
{
    let key = parts(named(action));
    let d = after(disk, from, spared, action);
    assert forall|place: Seq<PartView>|
        (#[trigger] d(place)) is Some && place.len() > 1 implies is_dir_at(
        d,
        place.drop_last(),
    ) by {
        let up = place.drop_last();
        if place == key {
            assert(up != key) by {
                assert(up.len() == key.len() - 1);
            }
            assert(!below(key, up)) by {
                assert(up.len() < key.len());
            }
            if action is SetDirMeta || action is SetFileMeta {
                assert(disk(place) is Some);
            }
            assert(is_dir_at(disk, up));
        } else {
            assert(disk(place) is Some);
            assert(is_dir_at(disk, up));
            if below(key, up) {
                assert(place.take(key.len() as int) =~= up.take(key.len() as int));
                assert(below(key, place));
            }
            if up == key {
                assert(key.take(key.len() as int) =~= key);
            }
        }
    }
}

/// The first actions of a list that can be carried out can be carried out.
proof fn lemma_run_prefix(
    disk: Disk,
    from: Disk,
    spared: Places,
    actions: Seq<ActionView>,
    k: int,
)
    requires
        run(disk, from, spared, actions) is Some,
        0 <= k < actions.len(),
    ensures
        run(disk, from, spared, actions.take(k)) matches Some(d) && works(
            d,
            from,
            spared,
            actions[k],
        ),
    decreases actions.len(),
{
    let rest = actions.drop_last();
    if k == actions.len() - 1 {
        assert(actions.take(k) =~= rest);
    } else {
        lemma_run_prefix(disk, from, spared, rest, k);
        assert(rest.take(k) =~= actions.take(k));
    }
}

/// Whatever actions are tried, and whichever of them fail: an action that is
/// carried out finds real directories in front of the last component of its
/// path.
pub proof fn tried_actions_never_pass_through_links(
    disk: Disk,
    from: Disk,
    spared: Places,
    actions: Seq<ActionView>,
    fails: spec_fn(int) -> bool,
    action: ActionView,
    m: int,
)
    requires
        grounded(disk),
        works(carry_out(disk, from, spared, actions, fails), from, spared, action),
        0 < m < depth(named(action)),
    ensures
        is_dir_at(
            carry_out(disk, from, spared, actions, fails),
            parts(named(action)).take(m),
        ),
{
    let d = carry_out(disk, from, spared, actions, fails);
    let place = parts(named(action));
    lemma_carried_out_grounded(disk, from, spared, actions, fails);
    if action is CreateDir || action is Copy || action is CreateSymlink {
        let up = place.drop_last();
        if m < up.len() {
            lemma_dirs_on_disk(d, up, m);
        }
        assert(up.take(m) =~= place.take(m));
        assert(up.take(up.len() as int) =~= up);
    } else {
        lemma_dirs_on_disk(d, place, m);
    }
}

proof fn lemma_carried_out_grounded(
    disk: Disk,
    from: Disk,
    spared: Places,
    actions: Seq<ActionView>,
    fails: spec_fn(int) -> bool,
)
    requires
        grounded(disk),
    ensures
        grounded(carry_out(disk, from, spared, actions, fails)),
    decreases actions.len(),
{
    if actions.len() > 0 {
        let d = carry_out(disk, from, spared, actions.drop_last(), fails);
        lemma_carried_out_grounded(disk, from, spared, actions.drop_last(), fails);
        if works(d, from, spared, actions.last()) {
            lemma_stays_grounded(d, from, spared, actions.last());
        }
    }
}

/// When the turn of an action comes, every component in front of the last one
/// of its path is a real directory of the target. So no action is led astray by
/// a symlink there, be it one that points into the source.
pub proof fn actions_never_pass_through_links(
    src: Seq<Item>,
    dst: Seq<Item>,
    tol: i64,
    forced: Seq<Seq<u8>>,
    from: Disk,
    to: Disk,
    hidden: Places,
    spared: Places,
    k: int,
    m: int,
)
    requires
        scanned(src, dst, from, to, hidden, spared),
        conflicts_are_clear(src, dst, to, spared),
        0 <= k < planned(src, dst, tol, forced).len(),
        0 < m < depth(named(planned(src, dst, tol, forced)[k])),
    ensures
        run(to, from, spared, planned(src, dst, tol, forced).take(k)) matches Some(disk) && is_dir_at(
            disk,
            parts(named(planned(src, dst, tol, forced)[k])).take(m),
        ),
{
    let plan = planned(src, dst, tol, forced);
    plan_makes_a_mirror(src, dst, tol, forced, from, to, hidden, spared);
    lemma_run_prefix(to, from, spared, plan, k);
    runs_are_carried_out(to, from, spared, plan.take(k));
    tried_actions_never_pass_through_links(
        to,
        from,
        spared,
        plan.take(k),
        |i: int| false,
        plan[k],
        m,
    );
}

} // verus!
