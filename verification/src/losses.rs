//! What a run takes from the target.
//!
//! A plan names a type conflict once, but all that lies below it goes with it.
//! The limit on deletions and the confirmation are about entries, so these are
//! counted here.

use crate::agreement::lemma_split_count;
use crate::entry::same_type;
use crate::picks::{filter_members, filter_step};
use crate::plan::{
    blocked, conflicts, conflicts_have_places, is_stale, lies_under, stale_dirs, stale_files,
};
use crate::tree::{
    ascending, found_at, holds, lookup, lookup_at, lookup_is_somewhere, paths_of, Item, Tree,
};
use vstd::prelude::*;

verus! {

/// The entry of the target does not stay: the source has no entry of the same
/// type there.
pub open spec fn is_gone(item: Item, src: Seq<Item>) -> bool {
    !(lookup(src, item.path) matches Some(s) && same_type(s.kind, item.entry.kind))
}

/// The entries of the target that do not stay.
pub open spec fn gone(src: Seq<Item>, dst: Seq<Item>) -> Seq<Item> {
    dst.filter(|i: Item| is_gone(i, src))
}

/// The entries of the target that do not stay even if no extraneous entry is
/// deleted: those that are in the way of a source entry of another type, and
/// what lies under them.
pub open spec fn gone_anyway(src: Seq<Item>, dst: Seq<Item>) -> Seq<Item> {
    dst.filter(|i: Item| is_gone(i, src) && !is_stale(i, src, dst))
}

/// How many extraneous entries the target has.
pub open spec fn extraneous(src: Seq<Item>, dst: Seq<Item>) -> nat {
    stale_files(dst, src, dst).len() + stale_dirs(dst, src, dst).len()
}

/// Counts the entries of the target that do not stay.
pub fn count_gone(source: &Tree, dest: &Tree) -> (count: usize)
    ensures
        count == gone(source@, dest@).len(),
{
    let ghost src = source@;
    let ghost dst = dest@;
    let ghost p = |i: Item| is_gone(i, src);
    let mut count: usize = 0;
    let n = dest.len();
    let mut i: usize = 0;
    proof {
        reveal(Seq::filter);
        assert(dst.take(0) =~= Seq::<Item>::empty());
    }
    while i < n
        invariant
            src == source@,
            dst == dest@,
            i <= n == dst.len(),
            p == (|i: Item| is_gone(i, src)),
            count == dst.take(i as int).filter(p).len(),
            count <= i,
        decreases n - i,
    {
        proof {
            filter_step(dst, i as int, p);
        }
        let stays = match source.get(dest.path_at(i)) {
            Some(s) => s.kind.same_type(&dest.entry_at(i).kind),
            None => false,
        };
        if !stays {
            count += 1;
        }
        i += 1;
    }
    assert(dst.take(n as int) =~= dst);
    count
}

/// The entries that do not stay are the extraneous ones, and those that go
/// anyway. There are at least as many of the latter as conflicts, and some
/// exactly if there is a conflict.
pub proof fn losses_add_up(src: Seq<Item>, dst: Seq<Item>)
    requires
        ascending(paths_of(src)),
        ascending(paths_of(dst)),
    ensures
        gone(src, dst).len() == gone_anyway(src, dst).len() + extraneous(src, dst),
        conflicts(src, dst).len() <= gone_anyway(src, dst).len(),
        conflicts(src, dst).len() == 0 <==> gone_anyway(src, dst).len() == 0,
        gone(src, dst).len() <= dst.len(),
{
    let g = |i: Item| is_gone(i, src);
    let anyway = |i: Item| is_gone(i, src) && !is_stale(i, src, dst);
    let stale = |i: Item| is_stale(i, src, dst);
    let f = |i: Item| is_stale(i, src, dst) && !(i.entry.kind is Dir);
    let d = |i: Item| is_stale(i, src, dst) && i.entry.kind is Dir;
    lemma_split_count(dst, f, d, stale);
    lemma_split_count(dst, anyway, stale, g);
    filter_members(dst, g);
    filter_members(dst, anyway);
    let list = conflicts(src, dst);
    let c = |i: Item| blocked(i.entry, lookup(dst, i.path));
    filter_members(src, c);
    let p = |t: Item| holds(paths_of(list), t.path);
    conflicts_have_places(src, dst);
    assert forall|i: int| 0 <= i < dst.len() && p(#[trigger] dst[i]) implies anyway(dst[i]) by {
        let k = choose|k: int| found_at(paths_of(list), k, dst[i].path);
        assert(list.contains(list[k]));
        let j = choose|j: int| 0 <= j < src.len() && src[j] == list[k];
        lookup_at(src, j, dst[i].path);
        lookup_at(dst, i, src[j].path);
    }
    lemma_fewer_pass(dst, p, anyway);
    let out = gone_anyway(src, dst);
    if out.len() > 0 {
        let x = out[0];
        assert(out.contains(x));
        let i = choose|i: int| 0 <= i < dst.len() && dst[i] == x;
        if lookup(src, x.path) is Some {
            let j = lookup_is_somewhere(src, x.path);
            lookup_at(dst, i, src[j].path);
            assert(src.contains(src[j]));
            assert(list.contains(src[j]));
        } else {
            assert(lies_under(list, x.path));
        }
    }
}

/// A choice that passes less is not longer.
proof fn lemma_fewer_pass(list: Seq<Item>, p: spec_fn(Item) -> bool, q: spec_fn(Item) -> bool)
    requires
        forall|i: int| 0 <= i < list.len() && p(#[trigger] list[i]) ==> q(list[i]),
    ensures
        list.filter(p).len() <= list.filter(q).len(),
    decreases list.len(),
{
    reveal(Seq::filter);
    if list.len() > 0 {
        let rest = list.drop_last();
        assert(forall|i: int| 0 <= i < rest.len() ==> rest[i] == list[i]);
        lemma_fewer_pass(rest, p, q);
        assert(p(list[list.len() - 1]) ==> q(list[list.len() - 1]));
    }
}

} // verus!
