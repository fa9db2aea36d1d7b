//! Choosing entries of a tree, in order, and ordering them by depth.

use crate::path::{depth, path_order_is_total, same_path};
use crate::tree::{ascending, paths_of, Item, Tree};
use vstd::prelude::*;

verus! {

/// The items at these positions of a tree.
pub open spec fn picked(tree: Seq<Item>, list: Seq<usize>) -> Seq<Item> {
    list.map_values(|k: usize| tree[k as int])
}

/// The positions lie in a tree of this size.
pub open spec fn in_range(list: Seq<usize>, n: nat) -> bool {
    forall|i: int| 0 <= i < list.len() ==> #[trigger] list[i] < n
}

/// The items with exactly `d` components, in their order.
pub open spec fn at_depth(list: Seq<Item>, d: int) -> Seq<Item> {
    list.filter(|item: Item| depth(item.path) == d)
}

/// One more than the largest number of components.
pub open spec fn depth_bound(list: Seq<Item>) -> nat
    decreases list.len(),
{
    if list.len() == 0 {
        0
    } else {
        let rest = depth_bound(list.drop_last());
        if depth(list.last().path) + 1 > rest {
            depth(list.last().path) + 1
        } else {
            rest
        }
    }
}

/// The items with less than `n` components, level by level downwards.
pub open spec fn levels_down(list: Seq<Item>, n: nat) -> Seq<Item>
    decreases n,
{
    if n == 0 {
        Seq::empty()
    } else {
        levels_down(list, (n - 1) as nat) + at_depth(list, n - 1)
    }
}

/// The items with less than `n` components, level by level upwards.
pub open spec fn levels_up(list: Seq<Item>, n: nat) -> Seq<Item>
    decreases n,
{
    if n == 0 {
        Seq::empty()
    } else {
        at_depth(list, n - 1) + levels_up(list, (n - 1) as nat)
    }
}

/// The items by depth, the fewest components first; items of one depth keep
/// their order.
pub open spec fn shallow_first(list: Seq<Item>) -> Seq<Item> {
    levels_down(list, depth_bound(list))
}

/// The items by depth, the most components first; items of one depth keep
/// their order.
pub open spec fn deep_first(list: Seq<Item>) -> Seq<Item> {
    levels_up(list, depth_bound(list))
}

/// Filtering one item more.
pub proof fn filter_step<T>(list: Seq<T>, i: int, p: spec_fn(T) -> bool)
    requires
        0 <= i < list.len(),
    ensures
        list.take(i + 1).filter(p) == if p(list[i]) {
            list.take(i).filter(p).push(list[i])
        } else {
            list.take(i).filter(p)
        },
{
    reveal(Seq::filter);
    assert(list.take(i + 1).drop_last() =~= list.take(i));
    assert(list.take(i + 1).last() == list[i]);
}

/// A filtered list holds those items of the list that pass.
pub proof fn filter_members<T>(list: Seq<T>, p: spec_fn(T) -> bool)
    ensures
        forall|x: T| #[trigger] list.filter(p).contains(x) <==> list.contains(x) && p(x),
        list.filter(p).len() <= list.len(),
    decreases list.len(),
{
    reveal(Seq::filter);
    if list.len() > 0 {
        let rest = list.drop_last();
        let last = list.last();
        filter_members(rest, p);
        assert forall|x: T| #[trigger] list.filter(p).contains(x) <==> list.contains(x) && p(x) by {
            if list.contains(x) && p(x) {
                let i = choose|i: int| 0 <= i < list.len() && list[i] == x;
                if i < list.len() - 1 {
                    assert(rest[i] == x);
                    assert(rest.filter(p).contains(x));
                    let j = choose|j: int| 0 <= j < rest.filter(p).len() && rest.filter(p)[j] == x;
                    assert(list.filter(p)[j] == x);
                } else {
                    assert(list.filter(p).last() == x);
                }
            }
            if list.filter(p).contains(x) {
                let j = choose|j: int| 0 <= j < list.filter(p).len() && list.filter(p)[j] == x;
                if j < rest.filter(p).len() {
                    assert(rest.filter(p)[j] == x);
                    assert(rest.filter(p).contains(x));
                    let i = choose|i: int| 0 <= i < rest.len() && rest[i] == x;
                    assert(list[i] == x);
                } else {
                    assert(x == last);
                    assert(list[list.len() - 1] == x);
                }
            }
        }
    }
}

/// No two items of the list name the same path.
pub open spec fn all_different(list: Seq<Item>) -> bool {
    forall|i: int, j: int|
        #![trigger list[i], list[j]]
        0 <= i < j < list.len() ==> !same_path(list[i].path, list[j].path)
}

/// What is chosen from items that all differ all differs.
pub proof fn filter_keeps_different(list: Seq<Item>, p: spec_fn(Item) -> bool)
    requires
        all_different(list),
    ensures
        all_different(list.filter(p)),
    decreases list.len(),
{
    reveal(Seq::filter);
    if list.len() > 0 {
        let rest = list.drop_last();
        filter_keeps_different(rest, p);
        filter_members(rest, p);
        let out = list.filter(p);
        let before = rest.filter(p);
        assert forall|i: int, j: int|
            #![trigger out[i], out[j]]
            0 <= i < j < out.len() implies !same_path(out[i].path, out[j].path) by {
            assert(out[i] == before[i]);
            if j < before.len() {
                assert(out[j] == before[j]);
            } else {
                assert(before.contains(before[i]));
                let k = choose|k: int| 0 <= k < rest.len() && rest[k] == before[i];
                assert(list[k] == out[i]);
                assert(list[list.len() - 1] == out[j]);
            }
        }
    }
}

/// No depth reaches the bound.
pub proof fn depth_stays_below_bound(list: Seq<Item>, i: int)
    requires
        0 <= i < list.len(),
    ensures
        depth(list[i].path) < depth_bound(list),
    decreases list.len(),
{
    if i < list.len() - 1 {
        depth_stays_below_bound(list.drop_last(), i);
    }
}

/// The levels above `n` hold each item with less than `n` components once, the
/// fewest components first.
proof fn lemma_levels_down(list: Seq<Item>, n: nat)
    requires
        all_different(list),
    ensures
        all_different(levels_down(list, n)),
        forall|x: Item| #[trigger]
            levels_down(list, n).contains(x) <==> list.contains(x) && depth(x.path) < n,
        forall|i: int, j: int|
            0 <= i < j < levels_down(list, n).len() ==> depth(
                (#[trigger] levels_down(list, n)[i]).path,
            ) <= depth((#[trigger] levels_down(list, n)[j]).path),
    decreases n,
{
    if n > 0 {
        let m = (n - 1) as nat;
        lemma_levels_down(list, m);
        let p = |item: Item| depth(item.path) == n - 1;
        filter_keeps_different(list, p);
        filter_members(list, p);
        let a = levels_down(list, m);
        let b = at_depth(list, n - 1);
        let out = levels_down(list, n);
        assert(out == a + b);
        assert forall|i: int| 0 <= i < a.len() implies depth((#[trigger] a[i]).path) < m by {
            assert(a.contains(a[i]));
        }
        assert forall|i: int| 0 <= i < b.len() implies depth((#[trigger] b[i]).path) == m by {
            assert(b.contains(b[i]));
        }
        lemma_members_of_sum(a, b);
        assert forall|x: Item| #[trigger]
            out.contains(x) <==> list.contains(x) && depth(x.path) < n by {
            assert(a.contains(x) <==> list.contains(x) && depth(x.path) < m);
            assert(b.contains(x) <==> list.contains(x) && p(x));
        }
        assert forall|i: int, j: int|
            #![trigger out[i], out[j]]
            0 <= i < j < out.len() implies !same_path(out[i].path, out[j].path) by {
            if j < a.len() {
                assert(out[i] == a[i] && out[j] == a[j]);
            } else if i >= a.len() {
                assert(out[i] == b[i - a.len()] && out[j] == b[j - a.len()]);
            } else {
                assert(out[i] == a[i] && out[j] == b[j - a.len()]);
            }
        }
    }
}

/// A joined list holds the items of both lists.
proof fn lemma_members_of_sum(a: Seq<Item>, b: Seq<Item>)
    ensures
        forall|x: Item| #[trigger] (a + b).contains(x) <==> a.contains(x) || b.contains(x),
{
    assert forall|x: Item| #[trigger]
        (a + b).contains(x) <==> a.contains(x) || b.contains(x) by {
        if a.contains(x) {
            let i = choose|i: int| 0 <= i < a.len() && a[i] == x;
            assert((a + b)[i] == x);
        }
        if b.contains(x) {
            let i = choose|i: int| 0 <= i < b.len() && b[i] == x;
            assert((a + b)[a.len() + i] == x);
        }
    }
}

/// The levels above `n` hold each item with less than `n` components once, the
/// most components first.
proof fn lemma_levels_up(list: Seq<Item>, n: nat)
    requires
        all_different(list),
    ensures
        all_different(levels_up(list, n)),
        forall|x: Item| #[trigger]
            levels_up(list, n).contains(x) <==> list.contains(x) && depth(x.path) < n,
        forall|i: int, j: int|
            0 <= i < j < levels_up(list, n).len() ==> depth(
                (#[trigger] levels_up(list, n)[i]).path,
            ) >= depth((#[trigger] levels_up(list, n)[j]).path),
    decreases n,
{
    if n > 0 {
        let m = (n - 1) as nat;
        lemma_levels_up(list, m);
        let p = |item: Item| depth(item.path) == n - 1;
        filter_keeps_different(list, p);
        filter_members(list, p);
        let a = levels_up(list, m);
        let b = at_depth(list, n - 1);
        let out = levels_up(list, n);
        assert(out == b + a);
        assert forall|i: int| 0 <= i < a.len() implies depth((#[trigger] a[i]).path) < m by {
            assert(a.contains(a[i]));
        }
        assert forall|i: int| 0 <= i < b.len() implies depth((#[trigger] b[i]).path) == m by {
            assert(b.contains(b[i]));
        }
        lemma_members_of_sum(b, a);
        assert forall|x: Item| #[trigger]
            out.contains(x) <==> list.contains(x) && depth(x.path) < n by {
            assert(a.contains(x) <==> list.contains(x) && depth(x.path) < m);
            assert(b.contains(x) <==> list.contains(x) && p(x));
        }
        assert forall|i: int, j: int|
            #![trigger out[i], out[j]]
            0 <= i < j < out.len() implies !same_path(out[i].path, out[j].path) by {
            if j < b.len() {
                assert(out[i] == b[i] && out[j] == b[j]);
            } else if i >= b.len() {
                assert(out[i] == a[i - b.len()] && out[j] == a[j - b.len()]);
            } else {
                assert(out[i] == b[i] && out[j] == a[j - b.len()]);
            }
        }
    }
}

/// Ordering items downwards keeps each of them, once, and puts no item before
/// one with fewer components: a directory comes before what lies in it.
pub proof fn shallow_first_orders(list: Seq<Item>)
    requires
        all_different(list),
    ensures
        all_different(shallow_first(list)),
        forall|x: Item| #[trigger] shallow_first(list).contains(x) <==> list.contains(x),
        forall|i: int, j: int|
            0 <= i < j < shallow_first(list).len() ==> depth(
                (#[trigger] shallow_first(list)[i]).path,
            ) <= depth((#[trigger] shallow_first(list)[j]).path),
{
    lemma_levels_down(list, depth_bound(list));
    assert forall|x: Item| #[trigger]
        shallow_first(list).contains(x) <==> list.contains(x) by {
        if list.contains(x) {
            let i = choose|i: int| 0 <= i < list.len() && list[i] == x;
            depth_stays_below_bound(list, i);
        }
    }
}

/// Ordering items upwards keeps each of them, once, and puts no item before one
/// with more components: a directory comes behind what lies in it.
pub proof fn deep_first_orders(list: Seq<Item>)
    requires
        all_different(list),
    ensures
        all_different(deep_first(list)),
        forall|x: Item| #[trigger] deep_first(list).contains(x) <==> list.contains(x),
        forall|i: int, j: int|
            0 <= i < j < deep_first(list).len() ==> depth(
                (#[trigger] deep_first(list)[i]).path,
            ) >= depth((#[trigger] deep_first(list)[j]).path),
{
    lemma_levels_up(list, depth_bound(list));
    assert forall|x: Item| #[trigger] deep_first(list).contains(x) <==> list.contains(x) by {
        if list.contains(x) {
            let i = choose|i: int| 0 <= i < list.len() && list[i] == x;
            depth_stays_below_bound(list, i);
        }
    }
}

/// The items of a sorted tree all differ.
pub proof fn sorted_items_differ(tree: Seq<Item>)
    requires
        ascending(paths_of(tree)),
    ensures
        all_different(tree),
{
    assert forall|i: int, j: int|
        #![trigger tree[i], tree[j]]
        0 <= i < j < tree.len() implies !same_path(tree[i].path, tree[j].path) by {
        assert(paths_of(tree)[i] == tree[i].path);
        assert(paths_of(tree)[j] == tree[j].path);
        path_order_is_total(tree[i].path, tree[j].path);
    }
}

/// Picking one position more.
pub proof fn picked_push(tree: Seq<Item>, list: Seq<usize>, k: usize)
    ensures
        picked(tree, list.push(k)) == picked(tree, list).push(tree[k as int]),
{
    assert(picked(tree, list.push(k)) =~= picked(tree, list).push(tree[k as int]));
}

/// Orders picked positions by the depth of their paths.
pub fn by_depth(tree: &Tree, list: &Vec<usize>, deepest_first: bool) -> (out: Vec<usize>)
    requires
        in_range(list@, tree@.len()),
    ensures
        in_range(out@, tree@.len()),
        picked(tree@, out@) == if deepest_first {
            deep_first(picked(tree@, list@))
        } else {
            shallow_first(picked(tree@, list@))
        },
{
    let ghost all = picked(tree@, list@);
    let mut bound: usize = 0;
    let mut i: usize = 0;
    assert(all.take(0) =~= Seq::<Item>::empty());
    while i < list.len()
        invariant
            i <= list@.len(),
            all == picked(tree@, list@),
            in_range(list@, tree@.len()),
            bound == depth_bound(all.take(i as int)),
        decreases list@.len() - i,
    {
        let d = tree.path_at(list[i]).depth();
        assert(all.take(i + 1).drop_last() =~= all.take(i as int));
        assert(all.take(i + 1).last() == tree@[list@[i as int] as int]);
        if d >= bound {
            bound = d + 1;
        }
        i += 1;
    }
    assert(all.take(list@.len() as int) =~= all);
    let mut out: Vec<usize> = Vec::new();
    let mut n: usize = 0;
    assert(picked(tree@, out@) =~= Seq::<Item>::empty());
    while n < bound
        invariant
            n <= bound,
            all == picked(tree@, list@),
            in_range(list@, tree@.len()),
            in_range(out@, tree@.len()),
            bound == depth_bound(all),
            deepest_first ==> levels_up(all, bound as nat) == picked(tree@, out@) + levels_up(
                all,
                (bound - n) as nat,
            ),
            !deepest_first ==> picked(tree@, out@) == levels_down(all, n as nat),
        decreases bound - n,
    {
        let want = if deepest_first {
            bound - n - 1
        } else {
            n
        };
        let ghost before = picked(tree@, out@);
        level(tree, list, want, &mut out);
        n += 1;
        proof {
            if deepest_first {
                assert(before + levels_up(all, (bound - n + 1) as nat) =~= picked(tree@, out@)
                    + levels_up(all, (bound - n) as nat));
            }
        }
    }
    assert(picked(tree@, out@) + levels_up(all, 0) =~= picked(tree@, out@));
    out
}

/// Appends the positions whose paths have exactly `want` components.
fn level(tree: &Tree, list: &Vec<usize>, want: usize, out: &mut Vec<usize>)
    requires
        in_range(list@, tree@.len()),
        in_range(old(out)@, tree@.len()),
    ensures
        in_range(final(out)@, tree@.len()),
        picked(tree@, final(out)@) == picked(tree@, old(out)@) + at_depth(
            picked(tree@, list@),
            want as int,
        ),
{
    let ghost all = picked(tree@, list@);
    let ghost p = |item: Item| depth(item.path) == want;
    let ghost before = picked(tree@, out@);
    let mut i: usize = 0;
    proof {
        reveal(Seq::filter);
        assert(all.take(0).filter(p) =~= Seq::<Item>::empty());
        assert(before + all.take(0).filter(p) =~= before);
    }
    while i < list.len()
        invariant
            i <= list@.len(),
            all == picked(tree@, list@),
            p == (|item: Item| depth(item.path) == want),
            in_range(list@, tree@.len()),
            in_range(out@, tree@.len()),
            picked(tree@, out@) == before + all.take(i as int).filter(p),
        decreases list@.len() - i,
    {
        let k = list[i];
        proof {
            filter_step(all, i as int, p);
            picked_push(tree@, out@, k);
            assert(before + all.take(i as int).filter(p).push(all[i as int]) =~= (before
                + all.take(i as int).filter(p)).push(all[i as int]));
        }
        if tree.path_at(k).depth() == want {
            out.push(k);
        }
        i += 1;
    }
    assert(all.take(list@.len() as int) =~= all);
    assert(p =~= |item: Item| depth(item.path) == want as int);
}

} // verus!
