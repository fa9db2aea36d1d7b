//! Lexicographic order on sequences, for any strict total order on the items.

use vstd::prelude::*;

verus! {

/// `less` is a strict total order.
pub open spec fn strict_total<T>(less: spec_fn(T, T) -> bool) -> bool {
    &&& forall|x: T| !#[trigger] less(x, x)
    &&& forall|x: T, y: T| x == y || #[trigger] less(x, y) || less(y, x)
    &&& forall|x: T, y: T, z: T| #[trigger] less(x, y) && #[trigger] less(y, z) ==> less(x, z)
}

/// `a` and `b` agree before position `k`, and `a` comes first there: it ends
/// there while `b` goes on, or its item is the smaller one.
pub open spec fn parts_ways<T>(a: Seq<T>, b: Seq<T>, k: int, less: spec_fn(T, T) -> bool) -> bool {
    &&& 0 <= k <= a.len()
    &&& k < b.len()
    &&& a.take(k) == b.take(k)
    &&& k == a.len() || less(a[k], b[k])
}

/// `a` comes before `b` in the lexicographic order that `less` induces.
pub open spec fn lex_less<T>(a: Seq<T>, b: Seq<T>, less: spec_fn(T, T) -> bool) -> bool {
    exists|k: int| parts_ways(a, b, k, less)
}

/// No sequence comes before itself.
pub proof fn lex_irreflexive<T>(a: Seq<T>, less: spec_fn(T, T) -> bool)
    requires
        strict_total(less),
    ensures
        !lex_less(a, a, less),
{
    assert forall|k: int| !parts_ways(a, a, k, less) by {
        assert(!less(a[k], a[k]));
    }
}

/// Before-ness carries over along a chain.
pub proof fn lex_transitive<T>(a: Seq<T>, b: Seq<T>, c: Seq<T>, less: spec_fn(T, T) -> bool)
    requires
        strict_total(less),
        lex_less(a, b, less),
        lex_less(b, c, less),
    ensures
        lex_less(a, c, less),
{
    let i = choose|k: int| parts_ways(a, b, k, less);
    let j = choose|k: int| parts_ways(b, c, k, less);
    let k = if i < j { i } else { j };
    assert(a.take(k) =~= a.take(i).take(k));
    assert(b.take(k) =~= b.take(i).take(k));
    assert(b.take(k) =~= b.take(j).take(k));
    assert(c.take(k) =~= c.take(j).take(k));
    if i < j {
        assert(b.take(j)[i] == c.take(j)[i]);
    } else if j < i {
        assert(a.take(i)[j] == b.take(i)[j]);
    }
    assert(parts_ways(a, c, k, less));
}

/// Two different sequences are ordered one way or the other.
pub proof fn lex_total<T>(a: Seq<T>, b: Seq<T>, less: spec_fn(T, T) -> bool)
    requires
        strict_total(less),
    ensures
        a == b || lex_less(a, b, less) || lex_less(b, a, less),
    decreases a.len(),
{
    if a.len() == 0 {
        if b.len() == 0 {
            assert(a =~= b);
        } else {
            assert(a.take(0) =~= b.take(0));
            assert(parts_ways(a, b, 0, less));
        }
    } else if b.len() == 0 {
        assert(a.take(0) =~= b.take(0));
        assert(parts_ways(b, a, 0, less));
    } else if a[0] != b[0] {
        assert(a.take(0) =~= b.take(0));
        if less(a[0], b[0]) {
            assert(parts_ways(a, b, 0, less));
        } else {
            assert(parts_ways(b, a, 0, less));
        }
    } else {
        let x = a.skip(1);
        let y = b.skip(1);
        lex_total(x, y, less);
        if x == y {
            assert(a =~= seq![a[0]] + x);
            assert(b =~= seq![b[0]] + y);
        } else if lex_less(x, y, less) {
            let k = choose|k: int| parts_ways(x, y, k, less);
            lemma_prepend(a, b, k, less);
        } else {
            let k = choose|k: int| parts_ways(y, x, k, less);
            lemma_prepend(b, a, k, less);
        }
    }
}

/// Parting ways behind an equal first item is parting ways one step later.
proof fn lemma_prepend<T>(a: Seq<T>, b: Seq<T>, k: int, less: spec_fn(T, T) -> bool)
    requires
        a.len() > 0,
        b.len() > 0,
        a[0] == b[0],
        parts_ways(a.skip(1), b.skip(1), k, less),
    ensures
        parts_ways(a, b, k + 1, less),
{
    assert(a.take(k + 1) =~= seq![a[0]] + a.skip(1).take(k));
    assert(b.take(k + 1) =~= seq![b[0]] + b.skip(1).take(k));
}

/// The lexicographic order of a strict total order is one again.
pub proof fn lex_strict_total<T>(less: spec_fn(T, T) -> bool)
    requires
        strict_total(less),
    ensures
        strict_total(|a: Seq<T>, b: Seq<T>| lex_less(a, b, less)),
{
    let lex = |a: Seq<T>, b: Seq<T>| lex_less(a, b, less);
    assert forall|a: Seq<T>| !#[trigger] lex(a, a) by {
        lex_irreflexive(a, less);
    }
    assert forall|a: Seq<T>, b: Seq<T>| a == b || #[trigger] lex(a, b) || lex(b, a) by {
        lex_total(a, b, less);
    }
    assert forall|a: Seq<T>, b: Seq<T>, c: Seq<T>| #[trigger] lex(a, b) && #[trigger] lex(b, c)
        implies lex(a, c) by {
        lex_transitive(a, b, c, less);
    }
}

} // verus!
