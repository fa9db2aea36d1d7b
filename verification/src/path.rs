//! Unix paths as byte strings, compared component by component.
//!
//! Two spellings that differ only in repeated separators, in `.` components
//! behind the first or in a trailing separator name the same path. The exact
//! bytes are kept all the same: they are what reaches the disk.

use crate::order::{lex_less, lex_strict_total, parts_ways, strict_total};
use vstd::prelude::*;

verus! {

/// The separator between components, `/`.
pub const SEP: u8 = 0x2f;

/// The byte `.`.
pub const DOT: u8 = 0x2e;

/// What one component of a path is.
pub enum PartView {
    /// The leading `/`.
    Root,
    /// A leading `.`.
    CurDir,
    /// A `..`.
    ParentDir,
    /// A file or directory name.
    Normal(Seq<u8>),
}

/// The end of the piece that starts at `i`: the next separator, or the end.
pub open spec fn piece_end(raw: Seq<u8>, i: int) -> int
    decreases raw.len() - i,
{
    if i < 0 || i >= raw.len() {
        raw.len() as int
    } else if raw[i] == SEP {
        i
    } else {
        piece_end(raw, i + 1)
    }
}

/// The component that a piece between separators stands for, if any. A `.`
/// counts only as the very first piece.
pub open spec fn classify(piece: Seq<u8>, first: bool) -> Option<PartView> {
    if piece.len() == 0 {
        None
    } else if piece == seq![DOT] {
        if first {
            Some(PartView::CurDir)
        } else {
            None
        }
    } else if piece == seq![DOT, DOT] {
        Some(PartView::ParentDir)
    } else {
        Some(PartView::Normal(piece))
    }
}

/// The component of the piece that starts at `i`, as a list of one or none.
pub open spec fn part_at(raw: Seq<u8>, i: int) -> Seq<PartView> {
    match classify(raw.subrange(i, piece_end(raw, i)), i == 0) {
        Some(part) => seq![part],
        None => Seq::empty(),
    }
}

/// The components of the pieces from `i` on.
pub open spec fn parts_from(raw: Seq<u8>, i: int) -> Seq<PartView>
    decreases raw.len() - i,
{
    if i < 0 || i > raw.len() {
        Seq::empty()
    } else {
        proof {
            piece_end_bounds(raw, i);
        }
        let end = piece_end(raw, i);
        if end >= raw.len() {
            part_at(raw, i)
        } else {
            part_at(raw, i) + parts_from(raw, end + 1)
        }
    }
}

/// Where each component of [`parts_from`] ends in `raw`.
pub open spec fn ends_from(raw: Seq<u8>, i: int) -> Seq<int>
    decreases raw.len() - i,
{
    if i < 0 || i > raw.len() {
        Seq::empty()
    } else {
        proof {
            piece_end_bounds(raw, i);
        }
        let end = piece_end(raw, i);
        let here = Seq::new(part_at(raw, i).len(), |k: int| end);
        if end >= raw.len() {
            here
        } else {
            here + ends_from(raw, end + 1)
        }
    }
}

/// A path that starts with a separator.
pub open spec fn is_rooted(raw: Seq<u8>) -> bool {
    raw.len() > 0 && raw[0] == SEP
}

/// The components of a path.
pub open spec fn parts(raw: Seq<u8>) -> Seq<PartView> {
    if is_rooted(raw) {
        seq![PartView::Root] + parts_from(raw, 0)
    } else {
        parts_from(raw, 0)
    }
}

/// Where each component of a path ends in its bytes.
pub open spec fn ends(raw: Seq<u8>) -> Seq<int> {
    if is_rooted(raw) {
        seq![1int] + ends_from(raw, 0)
    } else {
        ends_from(raw, 0)
    }
}

/// Two spellings of one path.
pub open spec fn same_path(a: Seq<u8>, b: Seq<u8>) -> bool {
    parts(a) == parts(b)
}

/// How many components a path has.
pub open spec fn depth(raw: Seq<u8>) -> nat {
    parts(raw).len()
}

/// The path without its last component; none for the root and for the empty
/// path.
pub open spec fn parent_of(raw: Seq<u8>) -> Option<Seq<u8>> {
    let n = depth(raw);
    if n == 0 || parts(raw).last() == PartView::Root {
        None
    } else if n == 1 {
        Some(Seq::empty())
    } else {
        Some(raw.take(ends(raw)[n - 2]))
    }
}

/// The name that the last component spells, if it is a name.
pub open spec fn name_of(raw: Seq<u8>) -> Option<Seq<u8>> {
    if depth(raw) == 0 {
        None
    } else {
        match parts(raw).last() {
            PartView::Normal(name) => Some(name),
            _ => None,
        }
    }
}

/// `base` with `rel` behind it. A rooted `rel` stands for itself.
pub open spec fn join_of(base: Seq<u8>, rel: Seq<u8>) -> Seq<u8> {
    if is_rooted(rel) {
        rel
    } else if base.len() == 0 || base.last() == SEP {
        base + rel
    } else {
        base.push(SEP) + rel
    }
}

/// `prefix` names `path` itself or one of the directories that `path` lies in.
pub open spec fn starts_with(path: Seq<u8>, prefix: Seq<u8>) -> bool {
    &&& depth(prefix) <= depth(path)
    &&& parts(path).take(depth(prefix) as int) == parts(prefix)
}

/// How many bytes a component takes in the spelling of a path.
pub open spec fn width(part: PartView) -> int {
    match part {
        PartView::Root => 1,
        PartView::CurDir => 1,
        PartView::ParentDir => 2,
        PartView::Normal(name) => name.len() as int,
    }
}

/// The part of `path` that lies behind `prefix`.
pub open spec fn strip_of(path: Seq<u8>, prefix: Seq<u8>) -> Option<Seq<u8>> {
    if !starts_with(path, prefix) {
        None
    } else if depth(path) == depth(prefix) {
        Some(Seq::empty())
    } else {
        let n = depth(prefix) as int;
        Some(path.subrange(ends(path)[n] - width(parts(path)[n]), ends(path).last()))
    }
}

// ---------------------------------------------------------------------------
// Order
// ---------------------------------------------------------------------------

/// Bytes by value.
pub open spec fn byte_order() -> spec_fn(u8, u8) -> bool {
    |a: u8, b: u8| a < b
}

/// The place of a component's kind in the order of components.
pub open spec fn rank(part: PartView) -> int {
    match part {
        PartView::Root => 0,
        PartView::CurDir => 1,
        PartView::ParentDir => 2,
        PartView::Normal(_) => 3,
    }
}

/// Components are ordered by kind, names by their bytes.
pub open spec fn part_less(a: PartView, b: PartView) -> bool {
    match (a, b) {
        (PartView::Normal(x), PartView::Normal(y)) => lex_less(x, y, byte_order()),
        _ => rank(a) < rank(b),
    }
}

/// [`part_less`] as a value.
pub open spec fn part_order() -> spec_fn(PartView, PartView) -> bool {
    |a: PartView, b: PartView| part_less(a, b)
}

/// Paths are ordered component by component.
pub open spec fn path_less(a: Seq<u8>, b: Seq<u8>) -> bool {
    lex_less(parts(a), parts(b), part_order())
}

proof fn lemma_part_order_strict_total()
    ensures
        strict_total(part_order()),
{
    let less = part_order();
    lex_strict_total(byte_order());
    let lex = |a: Seq<u8>, b: Seq<u8>| lex_less(a, b, byte_order());
    assert forall|x: PartView| !#[trigger] less(x, x) by {
        if let PartView::Normal(n) = x {
            assert(!lex(n, n));
        }
    }
    assert forall|x: PartView, y: PartView| x == y || #[trigger] less(x, y) || less(y, x) by {
        if let (PartView::Normal(m), PartView::Normal(n)) = (x, y) {
            assert(m == n || lex(m, n) || lex(n, m));
        }
    }
    assert forall|x: PartView, y: PartView, z: PartView|
        #[trigger] less(x, y) && #[trigger] less(y, z) implies less(x, z) by {
        if let (PartView::Normal(l), PartView::Normal(m)) = (x, y) {
            if let PartView::Normal(n) = z {
                assert(lex(l, m) && lex(m, n));
                assert(lex(l, n));
            }
        }
    }
}

/// The order of paths is strict and total up to spelling.
pub proof fn path_order_is_total(a: Seq<u8>, b: Seq<u8>)
    ensures
        same_path(a, b) || path_less(a, b) || path_less(b, a),
        same_path(a, b) ==> !path_less(a, b),
        path_less(a, b) ==> !path_less(b, a),
{
    lemma_part_order_strict_total();
    lex_strict_total(part_order());
    let lex = |a: Seq<PartView>, b: Seq<PartView>| lex_less(a, b, part_order());
    assert(strict_total(lex));
    assert(parts(a) == parts(b) || lex(parts(a), parts(b)) || lex(parts(b), parts(a)));
    assert(!lex(parts(a), parts(a)));
    if lex(parts(a), parts(b)) && lex(parts(b), parts(a)) {
        assert(lex(parts(a), parts(a)));
    }
}

/// The order of paths carries over along a chain.
pub proof fn path_order_is_transitive(a: Seq<u8>, b: Seq<u8>, c: Seq<u8>)
    requires
        path_less(a, b),
        path_less(b, c),
    ensures
        path_less(a, c),
{
    lemma_part_order_strict_total();
    lex_strict_total(part_order());
    let lex = |a: Seq<PartView>, b: Seq<PartView>| lex_less(a, b, part_order());
    assert(lex(parts(a), parts(b)) && lex(parts(b), parts(c)));
    assert(lex(parts(a), parts(c)));
}

// ---------------------------------------------------------------------------
// Facts about the components
// ---------------------------------------------------------------------------

/// A piece ends at or behind its start, in front of the first separator.
pub proof fn piece_end_bounds(raw: Seq<u8>, i: int)
    requires
        0 <= i <= raw.len(),
    ensures
        i <= piece_end(raw, i) <= raw.len(),
        piece_end(raw, i) < raw.len() ==> raw[piece_end(raw, i)] == SEP,
        forall|k: int| i <= k < piece_end(raw, i) ==> raw[k] != SEP,
    decreases raw.len() - i,
{
    if i < raw.len() && raw[i] != SEP {
        piece_end_bounds(raw, i + 1);
    }
}

/// A piece ends where the first separator stands.
proof fn lemma_piece_end_is(raw: Seq<u8>, i: int, e: int)
    requires
        0 <= i <= e <= raw.len(),
        e < raw.len() ==> raw[e] == SEP,
        forall|k: int| i <= k < e ==> raw[k] != SEP,
    ensures
        piece_end(raw, i) == e,
    decreases e - i,
{
    if i < e {
        lemma_piece_end_is(raw, i + 1, e);
    }
}

proof fn lemma_ends_len(raw: Seq<u8>, i: int)
    ensures
        ends_from(raw, i).len() == parts_from(raw, i).len(),
    decreases raw.len() - i,
{
    if 0 <= i <= raw.len() {
        piece_end_bounds(raw, i);
        if piece_end(raw, i) < raw.len() {
            lemma_ends_len(raw, piece_end(raw, i) + 1);
        }
    }
}

/// Each component but the first takes at least two bytes.
proof fn lemma_parts_len(raw: Seq<u8>, i: int)
    ensures
        0 <= i <= raw.len() ==> 2 * parts_from(raw, i).len() <= raw.len() - i + 1,
    decreases raw.len() - i,
{
    if 0 <= i <= raw.len() {
        piece_end_bounds(raw, i);
        if piece_end(raw, i) < raw.len() {
            lemma_parts_len(raw, piece_end(raw, i) + 1);
        }
    }
}

/// Cutting the bytes where a component ends keeps the components up to it.
proof fn lemma_cut(raw: Seq<u8>, i: int, k: int)
    requires
        0 <= i <= raw.len(),
        0 <= k < parts_from(raw, i).len(),
    ensures
        ends_from(raw, i).len() == parts_from(raw, i).len(),
        i <= ends_from(raw, i)[k] <= raw.len(),
        ends_from(raw, i)[k] > 0,
        parts_from(raw.take(ends_from(raw, i)[k]), i) == parts_from(raw, i).take(k + 1),
        ends_from(raw.take(ends_from(raw, i)[k]), i) == ends_from(raw, i).take(k + 1),
    decreases raw.len() - i,
{
    piece_end_bounds(raw, i);
    lemma_ends_len(raw, i);
    let e = piece_end(raw, i);
    let here = part_at(raw, i);
    let c = ends_from(raw, i)[k];
    if k < here.len() {
        assert(c == e);
        lemma_piece_end_is(raw.take(e), i, e);
        assert(raw.take(e).subrange(i, e) =~= raw.subrange(i, e));
        assert(raw.subrange(i, e).len() > 0);
        assert(parts_from(raw, i).take(k + 1) =~= here);
        assert(ends_from(raw.take(e), i) =~= ends_from(raw, i).take(k + 1));
    } else {
        lemma_cut(raw, e + 1, k - here.len());
        assert(c == ends_from(raw, e + 1)[k - here.len()]);
        lemma_piece_end_is(raw.take(c), i, e);
        assert(raw.take(c).subrange(i, e) =~= raw.subrange(i, e));
        assert(parts_from(raw, i).take(k + 1) =~= here + parts_from(raw, e + 1).take(
            k + 1 - here.len(),
        ));
        assert(ends_from(raw.take(c), i) =~= ends_from(raw, i).take(k + 1));
    }
}

/// As [`lemma_cut`], for the whole path.
proof fn lemma_cut_path(raw: Seq<u8>, k: int)
    requires
        0 <= k < depth(raw),
    ensures
        ends(raw).len() == depth(raw),
        0 < ends(raw)[k] <= raw.len(),
        parts(raw.take(ends(raw)[k])) == parts(raw).take(k + 1),
        ends(raw.take(ends(raw)[k])) == ends(raw).take(k + 1),
{
    lemma_ends_len(raw, 0);
    let c = ends(raw)[k];
    if is_rooted(raw) {
        if k == 0 {
            let one = raw.take(1);
            assert(one =~= seq![SEP]);
            reveal_with_fuel(piece_end, 2);
            reveal_with_fuel(parts_from, 3);
            assert(parts_from(one, 1) =~= Seq::empty());
            assert(parts_from(one, 0) =~= Seq::empty());
            assert(parts(one) =~= parts(raw).take(1));
            lemma_ends_len(one, 0);
            assert(ends(one) =~= ends(raw).take(1));
        } else {
            lemma_cut(raw, 0, k - 1);
            assert(c == ends_from(raw, 0)[k - 1]);
            assert(parts(raw.take(c)) =~= parts(raw).take(k + 1));
            assert(ends(raw.take(c)) =~= ends(raw).take(k + 1));
        }
    } else {
        lemma_cut(raw, 0, k);
        assert(parts(raw.take(c)) =~= parts(raw).take(k + 1));
        assert(ends(raw.take(c)) =~= ends(raw).take(k + 1));
    }
}

/// The empty path has no components.
pub proof fn empty_path_has_no_parts()
    ensures
        parts(Seq::<u8>::empty()) == Seq::<PartView>::empty(),
{
    let none = Seq::<u8>::empty();
    assert(none.subrange(0, 0) =~= none);
    assert(parts(none) =~= Seq::<PartView>::empty());
}

/// The parent has all components but the last one.
pub proof fn parent_drops_last_part(raw: Seq<u8>)
    ensures
        parent_of(raw) matches Some(p) ==> parts(p) == parts(raw).drop_last(),
{
    let n = depth(raw) as int;
    if parent_of(raw) is Some {
        if n == 1 {
            empty_path_has_no_parts();
            assert(parts(raw).drop_last() =~= Seq::<PartView>::empty());
        } else {
            lemma_cut_path(raw, n - 2);
            assert(parts(raw).drop_last() =~= parts(raw).take(n - 1));
        }
    }
}

/// A name is not empty, holds no separator, and is neither `.` nor `..`.
proof fn lemma_names(raw: Seq<u8>, i: int, k: int)
    requires
        0 <= i <= raw.len(),
        0 <= k < parts_from(raw, i).len(),
    ensures
        parts_from(raw, i)[k] matches PartView::Normal(n) ==> {
            &&& n.len() > 0
            &&& n != seq![DOT]
            &&& n != seq![DOT, DOT]
            &&& forall|j: int| 0 <= j < n.len() ==> n[j] != SEP
        },
    decreases raw.len() - i,
{
    piece_end_bounds(raw, i);
    let end = piece_end(raw, i);
    if k >= part_at(raw, i).len() {
        lemma_names(raw, end + 1, k - part_at(raw, i).len());
    }
}

/// A name, taken as a path, is that one name.
pub proof fn names_are_plain(raw: Seq<u8>, k: int)
    requires
        0 <= k < depth(raw),
    ensures
        parts(raw)[k] matches PartView::Normal(n) ==> parts(n) == seq![PartView::Normal(n)]
            && !is_rooted(n),
{
    if let PartView::Normal(n) = parts(raw)[k] {
        if is_rooted(raw) {
            assert(parts(raw)[k] == parts_from(raw, 0)[k - 1]);
            lemma_names(raw, 0, k - 1);
        } else {
            lemma_names(raw, 0, k);
        }
        lemma_piece_end_is(n, 0, n.len() as int);
        assert(n.subrange(0, n.len() as int) =~= n);
        assert(parts_from(n, 0) =~= seq![PartView::Normal(n)]);
    }
}

/// A name holds no separator.
pub proof fn names_hold_no_separator(raw: Seq<u8>)
    ensures
        name_of(raw) matches Some(n) ==> !n.contains(SEP),
{
    if let Some(n) = name_of(raw) {
        let k = depth(raw) - 1;
        if is_rooted(raw) {
            assert(parts(raw)[k] == parts_from(raw, 0)[k - 1]);
            lemma_names(raw, 0, k - 1);
        } else {
            lemma_names(raw, 0, k);
        }
    }
}

/// Bytes without a separator are one name, unless they spell `.` or `..`.
pub proof fn bytes_make_a_name(n: Seq<u8>)
    requires
        n.len() > 2,
        !n.contains(SEP),
    ensures
        parts(n) == seq![PartView::Normal(n)],
        !is_rooted(n),
{
    assert forall|k: int| 0 <= k < n.len() implies n[k] != SEP by {
        if n[k] == SEP {
            assert(n.contains(SEP));
        }
    }
    assert(n[0] != SEP);
    lemma_piece_end_is(n, 0, n.len() as int);
    assert(n.subrange(0, n.len() as int) =~= n);
    assert(parts_from(n, 0) =~= seq![PartView::Normal(n)]);
}

/// A piece without separators, taken as a path, is one component, or none if it
/// is empty.
pub proof fn pieces_are_components(n: Seq<u8>)
    requires
        !n.contains(SEP),
    ensures
        parts(n) == match classify(n, true) {
            Some(part) => seq![part],
            None => Seq::empty(),
        },
        !is_rooted(n),
{
    assert forall|k: int| 0 <= k < n.len() implies n[k] != SEP by {
        if n[k] == SEP {
            assert(n.contains(SEP));
        }
    }
    lemma_piece_end_is(n, 0, n.len() as int);
    assert(n.subrange(0, n.len() as int) =~= n);
}

/// The root alone is one component.
pub proof fn root_is_one_component()
    ensures
        parts(seq![SEP]) == seq![PartView::Root],
{
    let one = seq![SEP];
    reveal_with_fuel(piece_end, 2);
    reveal_with_fuel(parts_from, 3);
    assert(parts_from(one, 1) =~= Seq::empty());
    assert(parts_from(one, 0) =~= Seq::empty());
    assert(parts(one) =~= seq![PartView::Root]);
}

/// A separator at the end of a path changes nothing.
pub proof fn trailing_separators_do_not_count(path: Seq<u8>)
    requires
        path.len() > 0,
    ensures
        parts(path.push(SEP)) == parts(path),
{
    lemma_trailing_sep(path, 0);
    assert(is_rooted(path.push(SEP)) == is_rooted(path));
}

/// A lone `.` is one component, and not a name.
pub proof fn dot_is_the_current_directory()
    ensures
        parts(seq![DOT]) == seq![PartView::CurDir],
        name_of(seq![DOT]) is None,
{
    let raw = seq![DOT];
    reveal_with_fuel(piece_end, 3);
    reveal_with_fuel(parts_from, 2);
    assert(piece_end(raw, 0) == 1);
    assert(raw.subrange(0, 1) =~= raw);
    assert(parts_from(raw, 0) =~= seq![PartView::CurDir]);
}

/// The list without a leading `.`.
pub open spec fn behind_cur_dir(list: Seq<PartView>) -> Seq<PartView> {
    if list.len() > 0 && list[0] == PartView::CurDir {
        list.skip(1)
    } else {
        list
    }
}

/// A root stands only in front, and a `.` only as the first piece.
proof fn lemma_special_parts(raw: Seq<u8>, i: int)
    ensures
        forall|k: int|
            0 <= k < parts_from(raw, i).len() ==> #[trigger] parts_from(raw, i)[k]
                != PartView::Root,
        forall|k: int|
            0 <= k < parts_from(raw, i).len() && (i > 0 || k > 0) ==> #[trigger] parts_from(
                raw,
                i,
            )[k] != PartView::CurDir,
    decreases raw.len() - i,
{
    if 0 <= i <= raw.len() {
        piece_end_bounds(raw, i);
        let e = piece_end(raw, i);
        let here = part_at(raw, i);
        if e < raw.len() {
            lemma_special_parts(raw, e + 1);
            let rest = parts_from(raw, e + 1);
            assert forall|k: int| 0 <= k < parts_from(raw, i).len() implies #[trigger] parts_from(
                raw,
                i,
            )[k] != PartView::Root && ((i > 0 || k > 0) ==> parts_from(raw, i)[k]
                != PartView::CurDir) by {
                if k >= here.len() {
                    assert(parts_from(raw, i)[k] == rest[k - here.len()]);
                }
            }
        }
    }
}

/// A root is always the first component.
pub proof fn root_comes_first(raw: Seq<u8>, k: int)
    requires
        0 <= k < depth(raw),
        parts(raw)[k] == PartView::Root,
    ensures
        k == 0,
        is_rooted(raw),
{
    lemma_special_parts(raw, 0);
    if is_rooted(raw) {
        if k > 0 {
            assert(parts(raw)[k] == parts_from(raw, 0)[k - 1]);
        }
    }
}

/// Bytes in front do not change the components behind them, but that a leading
/// `.` no longer counts.
proof fn lemma_shift(x: Seq<u8>, y: Seq<u8>, j: int)
    requires
        x.len() > 0,
        0 <= j <= y.len(),
    ensures
        parts_from(x + y, x.len() + j) == if j == 0 {
            behind_cur_dir(parts_from(y, 0))
        } else {
            parts_from(y, j)
        },
    decreases y.len() - j,
{
    let all = x + y;
    let n = x.len() as int;
    piece_end_bounds(y, j);
    let e = piece_end(y, j);
    assert forall|k: int| n + j <= k < n + e implies all[k] != SEP by {
        assert(all[k] == y[k - n]);
    }
    lemma_piece_end_is(all, n + j, n + e);
    assert(all.subrange(n + j, n + e) =~= y.subrange(j, e));
    lemma_special_parts(y, j);
    if e < y.len() {
        lemma_shift(x, y, e + 1);
        lemma_special_parts(y, e + 1);
        let rest = parts_from(y, e + 1);
        assert(part_at(y, j) + rest == parts_from(y, j));
        if j == 0 {
            if y.subrange(0, e) == seq![DOT] {
                assert(parts_from(y, 0)[0] == PartView::CurDir);
                assert(parts_from(y, 0).skip(1) =~= rest);
                assert(part_at(all, n) + rest =~= rest);
            } else {
                assert(part_at(all, n) =~= part_at(y, 0));
                if part_at(y, 0).len() == 0 {
                    assert(parts_from(y, 0) =~= rest);
                }
            }
        }
    } else if j == 0 {
        if y.subrange(0, e) == seq![DOT] {
            assert(parts_from(y, 0).skip(1) =~= Seq::<PartView>::empty());
        }
    }
}

/// Up to a separator, what stands behind it does not matter.
proof fn lemma_front(x: Seq<u8>, y: Seq<u8>, i: int)
    requires
        0 <= i <= x.len(),
        x.len() > 0,
        x.last() == SEP,
    ensures
        parts_from(x + y, i) == parts_from(x, i) + parts_from(x + y, x.len() as int),
    decreases x.len() - i,
{
    let all = x + y;
    let n = x.len() as int;
    piece_end_bounds(x, i);
    let e = piece_end(x, i);
    if i == n {
        assert(x.subrange(n, n) =~= Seq::<u8>::empty());
        assert(parts_from(x, n) =~= Seq::<PartView>::empty());
        assert(parts_from(all, i) =~= parts_from(x, i) + parts_from(all, n));
    } else {
        if e == n {
            assert(x[n - 1] != SEP);
        }
        lemma_piece_end_is(all, i, e);
        assert(all.subrange(i, e) =~= x.subrange(i, e));
        lemma_front(x, y, e + 1);
        assert(parts_from(all, i) =~= parts_from(x, i) + parts_from(all, n));
    }
}

/// A separator at the end changes nothing.
proof fn lemma_trailing_sep(x: Seq<u8>, i: int)
    requires
        0 <= i <= x.len(),
    ensures
        parts_from(x.push(SEP), i) == parts_from(x, i),
    decreases x.len() - i,
{
    let y = x.push(SEP);
    piece_end_bounds(x, i);
    let e = piece_end(x, i);
    lemma_piece_end_is(y, i, e);
    assert(y.subrange(i, e) =~= x.subrange(i, e));
    if e < x.len() {
        lemma_trailing_sep(x, e + 1);
    } else {
        assert(y.subrange(e + 1, e + 1) =~= Seq::<u8>::empty());
        assert(piece_end(y, e + 1) == e + 1);
        assert(parts_from(y, e + 1) =~= Seq::<PartView>::empty());
        assert(parts_from(y, i) =~= parts_from(x, i));
    }
}

/// Joining lines up the components of both paths.
pub proof fn join_concatenates_parts(base: Seq<u8>, rel: Seq<u8>)
    requires
        !is_rooted(rel),
    ensures
        parts(join_of(base, rel)) == if base.len() == 0 {
            parts(rel)
        } else {
            parts(base) + behind_cur_dir(parts(rel))
        },
{
    if base.len() == 0 {
        assert(join_of(base, rel) =~= rel);
    } else {
        let x = if base.last() == SEP {
            base
        } else {
            base.push(SEP)
        };
        lemma_front(x, rel, 0);
        lemma_shift(x, rel, 0);
        lemma_trailing_sep(base, 0);
        assert(is_rooted(x + rel) == is_rooted(base));
        assert(parts(x + rel) =~= parts(base) + behind_cur_dir(parts(rel)));
    }
}

/// From the start of a component on, the components are those from it on.
proof fn lemma_suffix(raw: Seq<u8>, i: int, k: int)
    requires
        0 <= i <= raw.len(),
        0 <= k < parts_from(raw, i).len(),
    ensures
        ends_from(raw, i).len() == parts_from(raw, i).len(),
        ({
            let s = ends_from(raw, i)[k] - width(parts_from(raw, i)[k]);
            &&& i <= s < ends_from(raw, i)[k] <= raw.len()
            &&& ends_from(raw, i)[k] == piece_end(raw, s)
            &&& part_at(raw, s) == seq![parts_from(raw, i)[k]]
            &&& parts_from(raw, s) == parts_from(raw, i).skip(k)
        }),
    decreases raw.len() - i,
{
    piece_end_bounds(raw, i);
    lemma_ends_len(raw, i);
    let e = piece_end(raw, i);
    let here = part_at(raw, i);
    if k < here.len() {
        assert(parts_from(raw, i).skip(0) =~= parts_from(raw, i));
        assert(parts_from(raw, i)[0] == here[0]);
        assert(ends_from(raw, i)[0] == e);
        assert(width(here[0]) == e - i);
    } else {
        lemma_suffix(raw, e + 1, k - here.len());
        lemma_ends_len(raw, e + 1);
        assert(parts_from(raw, i)[k] == parts_from(raw, e + 1)[k - here.len()]);
        assert(ends_from(raw, i)[k] == ends_from(raw, e + 1)[k - here.len()]);
        assert(parts_from(raw, i).skip(k) =~= parts_from(raw, e + 1).skip(k - here.len()));
    }
}

/// What lies behind a prefix has the components behind it.
pub proof fn strip_drops_prefix_parts(path: Seq<u8>, prefix: Seq<u8>)
    ensures
        strip_of(path, prefix) matches Some(rest) ==> parts(rest) == parts(path).skip(
            depth(prefix) as int,
        ),
{
    if let Some(rest) = strip_of(path, prefix) {
        let n = depth(prefix) as int;
        let d = depth(path) as int;
        if d == n {
            empty_path_has_no_parts();
            assert(parts(path).skip(n) =~= Seq::<PartView>::empty());
        } else {
            lemma_strip_bounds(path, n);
            lemma_cut_path(path, d - 1);
            let e = ends(path).last();
            let q = path.take(e);
            assert(parts(path).take(d) =~= parts(path));
            assert(ends(path).take(d) =~= ends(path));
            let s = ends(path)[n] - width(parts(path)[n]);
            let k = if is_rooted(q) {
                n - 1
            } else {
                n
            };
            assert(rest =~= q.skip(s));
            if k >= 0 {
                lemma_suffix(q, 0, k);
                assert(ends_from(q, 0)[k] == ends(q)[n]);
                assert(parts_from(q, s) == parts_from(q, 0).skip(k));
            }
            if s == 0 {
                assert(rest =~= q);
                if is_rooted(q) && k >= 0 {
                    assert(q.subrange(0, 0).len() == 0);
                    assert(false);
                }
                assert(parts(path).skip(0) =~= parts(path));
            } else {
                assert(q =~= q.take(s) + rest);
                lemma_shift(q.take(s), rest, 0);
                let pe = piece_end(q, s);
                piece_end_bounds(q, s);
                assert(q.subrange(s, pe).len() > 0);
                assert(q.subrange(s, pe) != seq![DOT]);
                assert(rest[0] == q[s]);
                assert(!is_rooted(rest));
                assert forall|j: int| 0 <= j < pe - s implies rest[j] != SEP by {
                    assert(rest[j] == q[s + j]);
                }
                lemma_piece_end_is(rest, 0, pe - s);
                assert(rest.subrange(0, pe - s) =~= q.subrange(s, pe));
                assert(part_at(rest, 0).len() == 1 && part_at(rest, 0)[0] != PartView::CurDir);
                assert(parts_from(rest, 0)[0] == part_at(rest, 0)[0]);
                assert(parts(path).skip(n) =~= parts_from(q, 0).skip(k));
            }
        }
    }
}

/// Where a component starts and ends in the bytes.
proof fn lemma_strip_bounds(raw: Seq<u8>, k: int)
    requires
        0 <= k < depth(raw),
    ensures
        ends(raw).len() == depth(raw),
        0 <= ends(raw)[k] - width(parts(raw)[k]) < ends(raw)[k] <= ends(raw).last() <= raw.len(),
{
    lemma_ends_len(raw, 0);
    lemma_cut_path(raw, depth(raw) - 1);
    lemma_cut_path(raw, k);
    let j = if is_rooted(raw) {
        k - 1
    } else {
        k
    };
    if j >= 0 {
        lemma_suffix(raw, 0, j);
        lemma_ends_ascend(raw, 0, j);
    } else if depth(raw) > 1 {
        lemma_suffix(raw, 0, depth(raw) - 2);
    }
}

/// Later components end later.
proof fn lemma_ends_ascend(raw: Seq<u8>, i: int, k: int)
    requires
        0 <= i <= raw.len(),
        0 <= k < parts_from(raw, i).len(),
    ensures
        ends_from(raw, i).len() == parts_from(raw, i).len(),
        ends_from(raw, i)[k] <= ends_from(raw, i).last(),
    decreases raw.len() - i,
{
    piece_end_bounds(raw, i);
    lemma_ends_len(raw, i);
    let e = piece_end(raw, i);
    let here = part_at(raw, i);
    if e < raw.len() {
        lemma_ends_len(raw, e + 1);
        let rest = parts_from(raw, e + 1);
        if k >= here.len() {
            lemma_ends_ascend(raw, e + 1, k - here.len());
        } else if rest.len() > 0 {
            lemma_suffix(raw, e + 1, rest.len() - 1);
        }
    }
}

/// The parent is spelled as the front of its path.
pub proof fn parents_are_prefixes(raw: Seq<u8>)
    ensures
        parent_of(raw) matches Some(p) ==> p.len() <= raw.len() && p == raw.take(p.len() as int),
{
    if parent_of(raw) is Some {
        let n = depth(raw) as int;
        if n == 1 {
            assert(raw.take(0) =~= Seq::<u8>::empty());
        } else {
            lemma_cut_path(raw, n - 2);
        }
    }
}

/// The bytes stand somewhere in those of the path.
pub open spec fn stands_in(bytes: Seq<u8>, path: Seq<u8>) -> bool {
    exists|i: int|
        0 <= i && i + bytes.len() <= path.len() && bytes == #[trigger] path.subrange(
            i,
            i + bytes.len(),
        )
}

/// What lies behind a prefix is spelled as in the path.
pub proof fn rests_stand_in_their_paths(path: Seq<u8>, prefix: Seq<u8>)
    ensures
        strip_of(path, prefix) matches Some(rest) ==> stands_in(rest, path),
{
    if let Some(rest) = strip_of(path, prefix) {
        let n = depth(prefix) as int;
        if depth(path) == n {
            assert(path.subrange(0, 0int + rest.len()) =~= rest);
        } else {
            lemma_strip_bounds(path, n);
            let s = ends(path)[n] - width(parts(path)[n]);
            assert(path.subrange(s, s + rest.len()) =~= rest);
        }
    }
}

// ---------------------------------------------------------------------------
// The path type
// ---------------------------------------------------------------------------

/// One component of a path.
#[derive(Debug)]
enum Part {
    Root,
    CurDir,
    ParentDir,
    Normal(Vec<u8>),
}

impl View for Part {
    type V = PartView;

    closed spec fn view(&self) -> PartView {
        match self {
            Part::Root => PartView::Root,
            Part::CurDir => PartView::CurDir,
            Part::ParentDir => PartView::ParentDir,
            Part::Normal(name) => PartView::Normal(name@),
        }
    }
}

spec fn part_views(list: Seq<Part>) -> Seq<PartView> {
    list.map_values(|p: Part| p@)
}

/// The bytes of a path, together with its components.
#[derive(Debug)]
pub struct UnixPath {
    raw: Vec<u8>,
    parts: Vec<Part>,
    ends: Vec<usize>,
}

impl View for UnixPath {
    type V = Seq<u8>;

    /// The exact bytes.
    closed spec fn view(&self) -> Seq<u8> {
        self.raw@
    }
}

/// Copies a range of bytes.
pub fn slice_bytes(bytes: &Vec<u8>, from: usize, to: usize) -> (out: Vec<u8>)
    requires
        from <= to <= bytes@.len(),
    ensures
        out@ == bytes@.subrange(from as int, to as int),
{
    let mut out: Vec<u8> = Vec::new();
    let mut i: usize = from;
    while i < to
        invariant
            from <= i <= to <= bytes@.len(),
            out@ == bytes@.subrange(from as int, i as int),
        decreases to - i,
    {
        out.push(bytes[i]);
        i += 1;
        assert(bytes@.subrange(from as int, i as int) =~= bytes@.subrange(
            from as int,
            i - 1,
        ).push(bytes@[i - 1]));
    }
    out
}

/// True when both hold the same bytes.
pub fn same_bytes(a: &Vec<u8>, b: &Vec<u8>) -> (same: bool)
    ensures
        same == (a@ == b@),
{
    if a.len() != b.len() {
        return false;
    }
    let mut i: usize = 0;
    while i < a.len()
        invariant
            i <= a@.len() == b@.len(),
            forall|k: int| 0 <= k < i ==> a@[k] == b@[k],
        decreases a@.len() - i,
    {
        if a[i] != b[i] {
            return false;
        }
        i += 1;
    }
    assert(a@ =~= b@);
    true
}

/// True when `a` comes before `b` byte by byte.
fn bytes_precede(a: &Vec<u8>, b: &Vec<u8>) -> (less: bool)
    ensures
        less == lex_less(a@, b@, byte_order()),
{
    let mut i: usize = 0;
    while i < a.len() && i < b.len() && a[i] == b[i]
        invariant
            i <= a@.len(),
            i <= b@.len(),
            a@.take(i as int) == b@.take(i as int),
        decreases a@.len() - i,
    {
        i += 1;
        assert(a@.take(i as int) =~= a@.take(i - 1).push(a@[i - 1]));
        assert(b@.take(i as int) =~= b@.take(i - 1).push(b@[i - 1]));
    }
    let less = i < b.len() && (i >= a.len() || a[i] < b[i]);
    proof {
        if less {
            assert(parts_ways(a@, b@, i as int, byte_order()));
        } else {
            assert forall|k: int| !parts_ways(a@, b@, k, byte_order()) by {
                if parts_ways(a@, b@, k, byte_order()) {
                    if k < i {
                        assert(a@.take(i as int)[k] == b@.take(i as int)[k]);
                    } else if k > i {
                        assert(a@.take(k)[i as int] == b@.take(k)[i as int]);
                    }
                }
            }
        }
    }
    less
}

impl Part {
    fn same(&self, other: &Part) -> (same: bool)
        ensures
            same == (self@ == other@),
    {
        match (self, other) {
            (Part::Root, Part::Root) => true,
            (Part::CurDir, Part::CurDir) => true,
            (Part::ParentDir, Part::ParentDir) => true,
            (Part::Normal(x), Part::Normal(y)) => same_bytes(x, y),
            _ => false,
        }
    }

    fn rank(&self) -> (r: u8)
        ensures
            r == rank(self@),
    {
        match self {
            Part::Root => 0,
            Part::CurDir => 1,
            Part::ParentDir => 2,
            Part::Normal(_) => 3,
        }
    }

    fn precedes(&self, other: &Part) -> (less: bool)
        ensures
            less == part_less(self@, other@),
    {
        match (self, other) {
            (Part::Normal(x), Part::Normal(y)) => bytes_precede(x, y),
            _ => self.rank() < other.rank(),
        }
    }

    fn width(&self) -> (w: usize)
        ensures
            w == width(self@),
    {
        match self {
            Part::Root => 1,
            Part::CurDir => 1,
            Part::ParentDir => 2,
            Part::Normal(name) => name.len(),
        }
    }

    /// The component of a piece, if it has one.
    fn of_piece(piece: Vec<u8>, first: bool) -> (part: Option<Part>)
        ensures
            match part {
                Some(p) => classify(piece@, first) == Some(p@),
                None => classify(piece@, first) is None,
            },
    {
        if piece.len() == 0 {
            None
        } else if piece.len() == 1 && piece[0] == DOT {
            assert(piece@ =~= seq![DOT]);
            if first {
                Some(Part::CurDir)
            } else {
                None
            }
        } else if piece.len() == 2 && piece[0] == DOT && piece[1] == DOT {
            assert(piece@ =~= seq![DOT, DOT]);
            Some(Part::ParentDir)
        } else {
            assert(piece@ != seq![DOT]) by {
                if piece@ == seq![DOT] {
                    assert(piece@[0] == DOT);
                }
            }
            assert(piece@ != seq![DOT, DOT]) by {
                if piece@ == seq![DOT, DOT] {
                    assert(piece@[0] == DOT && piece@[1] == DOT);
                }
            }
            Some(Part::Normal(piece))
        }
    }
}

impl UnixPath {
    #[verifier::type_invariant]
    spec fn wf(self) -> bool {
        &&& part_views(self.parts@) == parts(self.raw@)
        &&& self.ends@.len() == self.parts@.len()
        &&& self.ends@.map_values(|e: usize| e as int) == ends(self.raw@)
    }

    /// The path that these bytes spell.
    pub fn new(raw: Vec<u8>) -> (path: UnixPath)
        ensures
            path@ == raw@,
    {
        let mut list: Vec<Part> = Vec::new();
        let mut stops: Vec<usize> = Vec::new();
        if raw.len() > 0 && raw[0] == SEP {
            list.push(Part::Root);
            stops.push(1);
        }
        let mut i: usize = 0;
        let mut more = true;
        proof {
            assert(part_views(list@) + parts_from(raw@, 0) =~= parts(raw@));
            assert(stops@.map_values(|e: usize| e as int) + ends_from(raw@, 0) =~= ends(raw@));
        }
        while more
            invariant
                i <= raw@.len(),
                list@.len() == stops@.len(),
                more ==> part_views(list@) + parts_from(raw@, i as int) == parts(raw@),
                more ==> stops@.map_values(|e: usize| e as int) + ends_from(raw@, i as int)
                    == ends(raw@),
                !more ==> part_views(list@) == parts(raw@),
                !more ==> stops@.map_values(|e: usize| e as int) == ends(raw@),
            decreases
                raw@.len() - i + if more {
                    1int
                } else {
                    0int
                },
        {
            let ghost list0 = part_views(list@);
            let ghost stops0 = stops@.map_values(|e: usize| e as int);
            let ghost start = i as int;
            let mut end: usize = i;
            while end < raw.len() && raw[end] != SEP
                invariant
                    i <= end <= raw@.len(),
                    forall|k: int| i <= k < end ==> raw@[k] != SEP,
                decreases raw@.len() - end,
            {
                end += 1;
            }
            proof {
                lemma_piece_end_is(raw@, start, end as int);
            }
            let part = Part::of_piece(slice_bytes(&raw, i, end), i == 0);
            let ghost here = part_at(raw@, start);
            match part {
                Some(part) => {
                    list.push(part);
                    stops.push(end);
                },
                None => {},
            }
            assert(part_views(list@) =~= list0 + here);
            assert(stops@.map_values(|e: usize| e as int) =~= stops0 + Seq::new(
                here.len(),
                |k: int| end as int,
            ));
            if end < raw.len() {
                i = end + 1;
                assert(part_views(list@) + parts_from(raw@, i as int) =~= list0 + parts_from(
                    raw@,
                    start,
                ));
                assert(stops@.map_values(|e: usize| e as int) + ends_from(raw@, i as int) =~= stops0
                    + ends_from(raw@, start));
            } else {
                more = false;
            }
        }
        UnixPath { raw, parts: list, ends: stops }
    }

    /// The path that this text spells.
    pub fn from_text(text: &str) -> (path: UnixPath)
        ensures
            path@ == vstd::utf8::encode_utf8(text@),
    {
        UnixPath::new(text.as_bytes_vec())
    }

    /// The exact bytes.
    pub fn as_bytes(&self) -> (bytes: &Vec<u8>)
        ensures
            bytes@ == self@,
    {
        &self.raw
    }

    /// A copy with the same bytes.
    pub fn duplicate(&self) -> (copy: UnixPath)
        ensures
            copy@ == self@,
    {
        UnixPath::new(slice_bytes(&self.raw, 0, self.raw.len()))
    }

    /// True for the path without any bytes.
    pub fn is_empty(&self) -> (empty: bool)
        ensures
            empty == (self@.len() == 0),
    {
        self.raw.len() == 0
    }

    /// True for a path that starts with a separator.
    pub fn is_rooted(&self) -> (rooted: bool)
        ensures
            rooted == is_rooted(self@),
    {
        self.raw.len() > 0 && self.raw[0] == SEP
    }

    /// How many components the path has.
    pub fn depth(&self) -> (n: usize)
        ensures
            n == depth(self@),
            n < usize::MAX,
    {
        proof {
            use_type_invariant(self);
            lemma_parts_len(self.raw@, 0);
        }
        assert(self.raw@.len() == self.raw.len());
        self.parts.len()
    }

    /// True when both spell the same path.
    pub fn same(&self, other: &UnixPath) -> (same: bool)
        ensures
            same == same_path(self@, other@),
    {
        proof {
            use_type_invariant(self);
            use_type_invariant(other);
        }
        let a = &self.parts;
        let b = &other.parts;
        if a.len() != b.len() {
            assert(part_views(a@).len() != part_views(b@).len());
            return false;
        }
        let mut i: usize = 0;
        while i < a.len()
            invariant
                part_views(a@) == parts(self@),
                part_views(b@) == parts(other@),
                i <= a@.len() == b@.len(),
                forall|k: int| 0 <= k < i ==> (#[trigger] a@[k])@ == b@[k]@,
            decreases a@.len() - i,
        {
            if !a[i].same(&b[i]) {
                assert(part_views(a@)[i as int] != part_views(b@)[i as int]);
                return false;
            }
            i += 1;
        }
        assert(part_views(a@) =~= part_views(b@));
        true
    }

    /// True when this path comes before the other one.
    pub fn precedes(&self, other: &UnixPath) -> (less: bool)
        ensures
            less == path_less(self@, other@),
    {
        proof {
            use_type_invariant(self);
            use_type_invariant(other);
        }
        let a = &self.parts;
        let b = &other.parts;
        let ghost x = part_views(a@);
        let ghost y = part_views(b@);
        let mut i: usize = 0;
        while i < a.len() && i < b.len() && a[i].same(&b[i])
            invariant
                i <= a@.len(),
                i <= b@.len(),
                x == part_views(a@),
                y == part_views(b@),
                x.take(i as int) == y.take(i as int),
            decreases a@.len() - i,
        {
            i += 1;
            assert(x.take(i as int) =~= x.take(i - 1).push(x[i - 1]));
            assert(y.take(i as int) =~= y.take(i - 1).push(y[i - 1]));
        }
        let less = i < b.len() && (i >= a.len() || a[i].precedes(&b[i]));
        proof {
            lemma_part_order_strict_total();
            if less {
                assert(parts_ways(x, y, i as int, part_order()));
            } else {
                assert forall|k: int| !parts_ways(x, y, k, part_order()) by {
                    if parts_ways(x, y, k, part_order()) {
                        if k < i {
                            assert(x.take(i as int)[k] == y.take(i as int)[k]);
                            assert(!part_order()(x[k], x[k]));
                        } else if k > i {
                            assert(x.take(k)[i as int] == y.take(k)[i as int]);
                        }
                    }
                }
            }
        }
        less
    }

    /// The path without its last component.
    pub fn parent(&self) -> (parent: Option<UnixPath>)
        ensures
            match parent {
                Some(p) => parent_of(self@) == Some(p@),
                None => parent_of(self@) is None,
            },
    {
        proof {
            use_type_invariant(self);
        }
        let n = self.parts.len();
        if n == 0 {
            return None;
        }
        assert(part_views(self.parts@).last() == self.parts@[n - 1]@);
        match &self.parts[n - 1] {
            Part::Root => {
                return None;
            },
            _ => {},
        }
        if n == 1 {
            let none: Vec<u8> = Vec::new();
            assert(none@ =~= Seq::<u8>::empty());
            return Some(UnixPath::new(none));
        }
        proof {
            lemma_cut_path(self@, n - 2);
        }
        assert(self.ends@.map_values(|e: usize| e as int)[n - 2] == ends(self@)[n - 2]);
        let cut = slice_bytes(&self.raw, 0, self.ends[n - 2]);
        assert(cut@ =~= self@.take(ends(self@)[n - 2]));
        Some(UnixPath::new(cut))
    }

    /// The name of the last component.
    pub fn file_name(&self) -> (name: Option<Vec<u8>>)
        ensures
            match name {
                Some(n) => name_of(self@) == Some(n@),
                None => name_of(self@) is None,
            },
    {
        proof {
            use_type_invariant(self);
        }
        let n = self.parts.len();
        if n == 0 {
            return None;
        }
        assert(part_views(self.parts@).last() == self.parts@[n - 1]@);
        match &self.parts[n - 1] {
            Part::Normal(name) => {
                let copy = slice_bytes(name, 0, name.len());
                assert(copy@ =~= name@);
                Some(copy)
            },
            _ => None,
        }
    }

    /// True when the last component is `..`.
    pub fn ends_in_parent(&self) -> (yes: bool)
        ensures
            yes == (depth(self@) > 0 && parts(self@).last() == PartView::ParentDir),
    {
        proof {
            use_type_invariant(self);
        }
        let n = self.parts.len();
        if n == 0 {
            return false;
        }
        assert(part_views(self.parts@).last() == self.parts@[n - 1]@);
        match &self.parts[n - 1] {
            Part::ParentDir => true,
            _ => false,
        }
    }

    /// This path with `rel` behind it.
    pub fn join(&self, rel: &UnixPath) -> (joined: UnixPath)
        ensures
            joined@ == join_of(self@, rel@),
    {
        if rel.is_rooted() {
            return rel.duplicate();
        }
        let mut out = slice_bytes(&self.raw, 0, self.raw.len());
        if out.len() > 0 && out[out.len() - 1] != SEP {
            out.push(SEP);
        }
        let ghost front = out@;
        let mut i: usize = 0;
        while i < rel.raw.len()
            invariant
                i <= rel.raw@.len(),
                out@ == front + rel.raw@.take(i as int),
            decreases rel.raw@.len() - i,
        {
            out.push(rel.raw[i]);
            i += 1;
            assert(rel.raw@.take(i as int) =~= rel.raw@.take(i - 1).push(rel.raw@[i - 1]));
        }
        assert(out@ =~= join_of(self@, rel@));
        UnixPath::new(out)
    }

    /// True when `prefix` is this path or lies above it.
    pub fn starts_with(&self, prefix: &UnixPath) -> (inside: bool)
        ensures
            inside == starts_with(self@, prefix@),
    {
        proof {
            use_type_invariant(self);
            use_type_invariant(prefix);
        }
        let a = &self.parts;
        let b = &prefix.parts;
        if b.len() > a.len() {
            return false;
        }
        let mut i: usize = 0;
        while i < b.len()
            invariant
                part_views(a@) == parts(self@),
                part_views(b@) == parts(prefix@),
                i <= b@.len() <= a@.len(),
                forall|k: int| 0 <= k < i ==> (#[trigger] a@[k])@ == b@[k]@,
            decreases b@.len() - i,
        {
            if !a[i].same(&b[i]) {
                assert(part_views(a@).take(b@.len() as int)[i as int] != part_views(b@)[i as int]);
                return false;
            }
            i += 1;
        }
        assert(part_views(a@).take(b@.len() as int) =~= part_views(b@));
        true
    }

    /// What of this path lies behind `prefix`.
    pub fn strip_prefix(&self, prefix: &UnixPath) -> (rest: Option<UnixPath>)
        ensures
            match rest {
                Some(r) => strip_of(self@, prefix@) == Some(r@),
                None => strip_of(self@, prefix@) is None,
            },
    {
        if !self.starts_with(prefix) {
            return None;
        }
        proof {
            use_type_invariant(self);
            use_type_invariant(prefix);
        }
        let n = prefix.parts.len();
        let d = self.parts.len();
        if n == d {
            let none: Vec<u8> = Vec::new();
            assert(none@ =~= Seq::<u8>::empty());
            return Some(UnixPath::new(none));
        }
        proof {
            lemma_strip_bounds(self@, n as int);
            assert(self.ends@.map_values(|e: usize| e as int)[n as int] == ends(self@)[n as int]);
            assert(self.ends@.map_values(|e: usize| e as int)[d - 1] == ends(self@)[d - 1]);
            assert(part_views(self.parts@)[n as int] == self.parts@[n as int]@);
        }
        let start = self.ends[n] - self.parts[n].width();
        Some(UnixPath::new(slice_bytes(&self.raw, start, self.ends[d - 1])))
    }
}

impl Clone for UnixPath {
    fn clone(&self) -> (copy: Self)
        ensures
            copy@ == self@,
    {
        self.duplicate()
    }
}

impl PartialEq for UnixPath {
    fn eq(&self, other: &Self) -> (same: bool) {
        self.same(other)
    }
}

impl vstd::std_specs::cmp::PartialEqSpecImpl for UnixPath {
    open spec fn obeys_eq_spec() -> bool {
        true
    }

    open spec fn eq_spec(&self, other: &Self) -> bool {
        same_path(self@, other@)
    }
}

impl Eq for UnixPath {

}

} // verus!
