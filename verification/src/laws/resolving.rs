//! Resolving the roots and keeping them apart.

use crate::path::{depth, is_rooted, parts, PartView, UnixPath};
use crate::resolve::{
    ascended, can_be_cut, check_disjoint, going_up_cuts_components, missing_names_are_appended,
    name_parts, plain_names, reduced, Canonical, Overlap, Resolution, Resolver,
};
use vstd::prelude::*;

verus! {

/// The components of one path are those of the other with something behind them.
pub open spec fn lies_in(path: Seq<u8>, dir: Seq<u8>) -> bool {
    exists|tail: Seq<PartView>| tail.len() > 0 && parts(path) == #[trigger] (parts(dir) + tail)
}

/// Two directories are kept apart exactly if they are different and neither lies in
/// the other; the error says which of these holds.
pub proof fn nested_roots_are_refused(
    source: &UnixPath,
    dest: &UnixPath,
    checked: Result<(), Overlap>,
)
    requires
        call_ensures(check_disjoint, (source, dest), checked),
    ensures
        checked == Err::<(), Overlap>(Overlap::Identical) <==> parts(source@) == parts(dest@),
        checked == Err::<(), Overlap>(Overlap::TargetInsideSource) <==> lies_in(dest@, source@),
        checked == Err::<(), Overlap>(Overlap::SourceInsideTarget) <==> lies_in(source@, dest@),
        checked is Ok <==> parts(source@) != parts(dest@) && !lies_in(dest@, source@) && !lies_in(
            source@,
            dest@,
        ),
{
    lemma_lies_in(dest@, source@);
    lemma_lies_in(source@, dest@);
}

proof fn lemma_lies_in(path: Seq<u8>, dir: Seq<u8>)
    ensures
        lies_in(path, dir) <==> crate::path::starts_with(path, dir) && parts(path) != parts(dir),
{
    let n = depth(dir) as int;
    if crate::path::starts_with(path, dir) && parts(path) != parts(dir) {
        let tail = parts(path).skip(n);
        assert(parts(path) =~= parts(dir) + tail);
        if tail.len() == 0 {
            assert(parts(path) =~= parts(dir));
        }
    }
    if lies_in(path, dir) {
        let tail = choose|tail: Seq<PartView>|
            tail.len() > 0 && parts(path) == #[trigger] (parts(dir) + tail);
        assert(parts(path).take(n) =~= parts(dir));
        assert(parts(path).len() == n + tail.len());
    }
}

/// Resolving starts with the whole path, and asks for it as it is spelled.
pub proof fn resolving_starts_with_the_path(path: &UnixPath, resolver: Resolver, asked: &UnixPath)
    requires
        call_ensures(Resolver::start, (path,), resolver),
        call_ensures(Resolver::asked, (&resolver,), asked),
    ensures
        asked@ == path@,
        resolver.cut_off().0 == 0 && resolver.cut_off().1.len() == 0,
        !resolver.is_dotted(),
        resolver.wf(),
{
}

/// A path that does not exist is asked for without its last component, which is kept:
/// a name in front of the others, unless a `..` behind it takes it away. What has
/// neither a name nor a `..` at its end cannot be resolved.
pub proof fn missing_components_are_kept(resolver: &mut Resolver, state: Resolution)
    requires
        old(resolver).wf(),
        call_ensures(Resolver::answer, (resolver, Canonical::NotFound), state),
    ensures
        ({
            let a = *old(resolver);
            let b = *final(resolver);
            let all = parts(a.asks());
            let names = a.cut_off().1;
            let ups = a.cut_off().0;
            let ends_in_name = all.len() > 0 && all.last() is Normal;
            let ends_in_dots = all.len() > 0 && all.last() is ParentDir;
            &&& state is Unresolvable <==> !ends_in_name && !ends_in_dots
            &&& state is Ask <==> ends_in_name || ends_in_dots
            &&& state is Ask ==> parts(b.asks()) == all.drop_last() || (all.len() == 1 && parts(
                b.asks(),
            ) == seq![PartView::CurDir])
            &&& ends_in_name && ups == 0 ==> b.cut_off() == (0nat, names.push(all.last()->Normal_0))
            &&& ends_in_name && ups > 0 ==> b.cut_off() == ((ups - 1) as nat, names)
            &&& ends_in_dots ==> b.cut_off() == (ups + 1, names) && b.is_dotted()
            &&& ends_in_name ==> b.is_dotted() == a.is_dotted()
        }),
{
    let a = *old(resolver);
    crate::path::parent_drops_last_part(a.asks());
    crate::path::dot_is_the_current_directory();
    crate::path::empty_path_has_no_parts();
    let all = parts(a.asks());
    if can_be_cut(a.asks()) {
        let up = crate::path::parent_of(a.asks())->0;
        if up.len() == 0 {
            assert(up =~= Seq::<u8>::empty());
            assert(all.len() == 1);
        }
    }
}

/// Once an absolute path is found, the kept names are appended to it in the order
/// in which they stood, behind as many components less as `..` go up. That is the
/// result, unless there were any `..`: then it is asked for once more.
pub proof fn found_paths_get_their_missing_names(
    resolver: &mut Resolver,
    base: UnixPath,
    state: Resolution,
)
    requires
        old(resolver).wf(),
        is_rooted(base@),
        depth(base@) > 0,
        plain_names(old(resolver).cut_off().1),
        call_ensures(Resolver::answer, (resolver, Canonical::Found(base)), state),
    ensures
        ({
            let a = *old(resolver);
            let b = *final(resolver);
            let (ups, names) = a.cut_off();
            let left = if ups < depth(base@) {
                depth(base@) - ups
            } else {
                1
            };
            let whole = parts(base@).take(left) + Seq::new(
                names.len(),
                |k: int| PartView::Normal(names[names.len() - 1 - k]),
            );
            &&& !a.is_dotted() ==> (state matches Resolution::Resolved(path) && parts(path@)
                == whole)
            &&& a.is_dotted() ==> state is Ask && parts(b.asks()) == whole && b.cut_off().0 == 0
                && b.cut_off().1.len() == 0 && !b.is_dotted()
        }),
{
    let (ups, names) = old(resolver).cut_off();
    let top = ascended(base@, ups);
    going_up_cuts_components(base@, ups);
    crate::path::empty_path_has_no_parts();
    if top.len() == 0 {
        assert(top =~= Seq::<u8>::empty());
    }
    missing_names_are_appended(top, names);
    assert(name_parts(names) =~= Seq::new(
        names.len(),
        |k: int| PartView::Normal(names[names.len() - 1 - k]),
    ));
}

/// An error of the system ends the resolving.
pub proof fn system_errors_end_resolving(resolver: &mut Resolver, state: Resolution)
    requires
        old(resolver).wf(),
        call_ensures(Resolver::answer, (resolver, Canonical::Error), state),
    ensures
        state is Failed,
{
}

/// Of names without any `..`, all are kept, in their order.
pub proof fn plain_names_are_all_kept(rest: Seq<PartView>)
    requires
        forall|k: int| 0 <= k < rest.len() ==> (#[trigger] rest[k]) is Normal,
    ensures
        reduced(rest).0 == 0,
        reduced(rest).1.len() == rest.len(),
        forall|k: int|
            0 <= k < rest.len() ==> (#[trigger] rest[k]) == PartView::Normal(
                reduced(rest).1[rest.len() - 1 - k],
            ),
    decreases rest.len(),
{
    if rest.len() > 0 {
        let more = rest.skip(1);
        assert(forall|k: int| 0 <= k < more.len() ==> more[k] == rest[k + 1]);
        plain_names_are_all_kept(more);
        assert(rest[0] is Normal);
        assert forall|k: int| 0 <= k < rest.len() implies (#[trigger] rest[k])
            == PartView::Normal(reduced(rest).1[rest.len() - 1 - k]) by {
            if k > 0 {
                assert(more[k - 1] == rest[k]);
            }
        }
    }
}

} // verus!
