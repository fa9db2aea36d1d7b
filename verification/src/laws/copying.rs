//! How a single file is copied.

use crate::copy::{
    copies_come_to_an_end, copy_next, copy_start, copy_wf, fits, permission_bits, plausible, played,
    requests, CopyOp, CopyRun, ReadOutcome, ReadStep, Reply, Transfer, CHUNK_PROGRESS_THRESHOLD,
    COPY_BUFFERS, COPY_CHUNK, SMALL_COPY_BUF, TEMP_MODE,
};
use vstd::prelude::*;

verus! {

/// The permission bits of a mode are its twelve lowest bits.
pub proof fn permissions_are_the_low_bits(mode: u32, bits: u32)
    requires
        call_ensures(permission_bits, (mode,), bits),
    ensures
        bits == mode % 0o10000,
{
    assert(mode & 0o7777 == mode % 0o10000) by (bit_vector);
}

/// While a file is written, nobody but its owner may read or write it, and
/// nobody may run it.
pub proof fn temporary_files_are_private()
    ensures
        TEMP_MODE == 0o600,
{
}

/// A file is moved in one go up to eight mebibytes, and in chunks beyond. Buffers
/// can hold something, and chunks go round in more than one of them.
pub proof fn small_files_are_those_up_to_the_threshold()
    ensures
        CHUNK_PROGRESS_THRESHOLD == 8 * 0x10_0000,
        0 < SMALL_COPY_BUF <= COPY_CHUNK,
        COPY_BUFFERS > 1,
{
}

/// Starting a copy and replying to its requests runs through the states that the
/// other laws speak of.
pub proof fn copies_are_played(
    fsync: bool,
    start: CopyRun,
    run: &mut CopyRun,
    reply: Reply,
    replies: Seq<Reply>,
)
    requires
        call_ensures(CopyRun::start, (fsync,), start),
        call_ensures(CopyRun::reply, (run, reply), ()),
        *old(run) == played(copy_start(fsync), replies),
    ensures
        start == played(copy_start(fsync), Seq::empty()),
        *final(run) == played(copy_start(fsync), replies.push(reply)),
{
    assert(replies.push(reply).drop_last() =~= replies);
}

/// A copy is over exactly if its file was copied or the copy failed.
pub proof fn copies_are_over_once_copied_or_failed(run: &CopyRun, over: bool)
    requires
        call_ensures(CopyRun::is_over, (run,), over),
    ensures
        over <==> run.op == CopyOp::Copied || run.op == CopyOp::Failed,
{
}

/// The replies to the requests before `k` are plausible too.
proof fn lemma_front(run: CopyRun, replies: Seq<Reply>, k: int)
    requires
        plausible(run, replies),
        0 <= k <= replies.len(),
    ensures
        plausible(run, replies.take(k)),
        k < replies.len() ==> replies.take(k + 1).drop_last() == replies.take(k),
        k < replies.len() ==> played(run, replies.take(k + 1)) == copy_next(
            played(run, replies.take(k)),
            replies[k],
        ),
        k < replies.len() ==> fits(played(run, replies.take(k)).op, replies[k]),
        replies.take(replies.len() as int) == replies,
{
    let part = replies.take(k);
    assert forall|m: int| 0 <= m < part.len() implies fits(
        played(run, #[trigger] part.take(m)).op,
        part[m],
    ) by {
        assert(part.take(m) =~= replies.take(m));
    }
    assert(replies.take(replies.len() as int) =~= replies);
    if k < replies.len() {
        assert(replies.take(k + 1).drop_last() =~= replies.take(k));
        assert(replies.take(k + 1).last() == replies[k]);
    }
}

/// What a copy remembers is what it was told: the size and mode of the last
/// metadata, the number of bytes moved, and whether a second try was made.
proof fn lemma_memory(fsync: bool, replies: Seq<Reply>)
    requires
        plausible(copy_start(fsync), replies),
    ensures
        ({
            let run = played(copy_start(fsync), replies);
            let at = |k: int| played(copy_start(fsync), replies.take(k)).op;
            &&& run.fsync == fsync
            &&& copy_wf(run)
            &&& run.op is OpenSource <==> replies.len() == 0
            &&& run.op is ReadMeta ==> replies.len() == 1
            &&& !(run.op is OpenSource || run.op is ReadMeta || run.op is RemoveTemp
                || run.op is Failed) ==> replies.len() >= 2 && replies[1] == (Reply::Meta {
                size: run.size,
                mode: run.mode,
            })
            &&& run.op is CopySmall ==> run.size <= 8 * 0x10_0000
            &&& run.op is CopyChunked ==> run.size > 8 * 0x10_0000
            &&& run.op matches CopyOp::SetPermissions(m) ==> m == run.mode & 0o7777
            &&& run.op is SyncFile ==> fsync
        }),
    decreases replies.len(),
{
    let start = copy_start(fsync);
    if replies.len() > 0 {
        let n = replies.len() - 1;
        lemma_front(start, replies, n);
        let rest = replies.take(n);
        lemma_memory(fsync, rest);
        copies_come_to_an_end(played(start, rest), replies[n]);
        if n >= 2 {
            assert(rest[1] == replies[1]);
        }
    }
}

/// The source is opened first and its metadata read next.
pub proof fn metadata_is_read_from_the_open_source(fsync: bool, replies: Seq<Reply>)
    requires
        plausible(copy_start(fsync), replies),
    ensures
        replies.len() >= 1 ==> requests(copy_start(fsync), replies)[0] == CopyOp::OpenSource,
        forall|k: int|
            0 <= k < replies.len() ==> ((#[trigger] requests(copy_start(fsync), replies)[k])
                is ReadMeta <==> k == 1 && replies[0] is Done),
{
    let start = copy_start(fsync);
    if replies.len() >= 1 {
        assert(replies.take(0) =~= Seq::<Reply>::empty());
    }
    assert forall|k: int| 0 <= k < replies.len() implies ((#[trigger] requests(
        start,
        replies,
    )[k]) is ReadMeta <==> k == 1 && replies[0] is Done) by {
        lemma_front(start, replies, k);
        lemma_memory(fsync, replies.take(k));
        if k >= 1 {
            lemma_front(start, replies, 0);
            assert(replies.take(0) =~= Seq::<Reply>::empty());
        }
    }
}

/// A copy gets the permissions of its source, and nothing else: whatever mode the
/// metadata showed, its twelve permission bits are asked for. And the way of
/// copying is the one for the size that the metadata showed.
pub proof fn copies_keep_permissions(
    fsync: bool,
    replies: Seq<Reply>,
    k: int,
    m: int,
    size: u64,
    mode: u32,
)
    requires
        plausible(copy_start(fsync), replies),
        0 <= k < m <= replies.len(),
        played(copy_start(fsync), replies.take(k)).op == CopyOp::ReadMeta,
        replies[k] == (Reply::Meta { size, mode }),
    ensures
        ({
            let op = played(copy_start(fsync), replies.take(m)).op;
            &&& op matches CopyOp::SetPermissions(bits) ==> bits == mode % 0o10000
            &&& op is CopySmall ==> size <= 8 * 0x10_0000
            &&& op is CopyChunked ==> size > 8 * 0x10_0000
        }),
{
    let start = copy_start(fsync);
    lemma_front(start, replies, k);
    lemma_memory(fsync, replies.take(k));
    lemma_front(start, replies, m);
    lemma_memory(fsync, replies.take(m));
    assert(mode & 0o7777 == mode % 0o10000) by (bit_vector);
    if m >= 2 {
        assert(replies.take(m)[1] == replies[1]);
    }
}

/// The contents are persisted exactly if that was asked for: a copy that flushed
/// its file goes on with that, or else with the permissions.
pub proof fn contents_are_persisted_if_asked_for(fsync: bool, replies: Seq<Reply>, k: int)
    requires
        plausible(copy_start(fsync), replies),
        0 <= k < replies.len(),
        played(copy_start(fsync), replies.take(k)).op == CopyOp::Flush,
        replies[k] is Done,
    ensures
        ({
            let op = played(copy_start(fsync), replies.take(k + 1)).op;
            &&& fsync ==> op is SyncFile
            &&& !fsync ==> op is SetPermissions
        }),
{
    let start = copy_start(fsync);
    lemma_front(start, replies, k);
    lemma_memory(fsync, replies.take(k));
}

/// How a copy that is told what went well goes on: flush once the contents are
/// there, set the times once the permissions are set, rename after that, and the
/// file is copied.
pub proof fn copies_go_on(run: CopyRun, reply: Reply)
    requires
        fits(run.op, reply),
        reply is Done || reply is Meta || reply is Moved,
    ensures
        ({
            let next = copy_next(run, reply);
            &&& run.op is OpenSource ==> next.op is ReadMeta
            &&& run.op is ReadMeta ==> next.op is OpenTemp
            &&& run.op is CreateParent || run.op is RemoveLeftover ==> next.op is OpenTemp
            &&& run.op is OpenTemp ==> next.op is CopySmall || next.op is CopyChunked
            &&& run.op is CopySmall || run.op is CopyChunked ==> next.op is Flush
            &&& run.op is SyncFile ==> next.op is SetPermissions
            &&& run.op is SetPermissions ==> next.op is SetTimes
            &&& run.op is SetTimes ==> next.op is Rename
            &&& run.op is Rename ==> next.op is Copied
            &&& run.op is RemoveTemp ==> next.op is Failed
            &&& reply matches Reply::Moved(n) ==> next.total == n
            &&& !(reply is Moved) ==> next.total == run.total
        }),
{
}

/// A failure leads to the removal of the temporary file, and then the copy has
/// failed. The one exception is a temporary file that cannot be created: if its
/// directory is missing it is created, and what is in the way is removed, and
/// then creating it is tried once more, but only once.
pub proof fn failures_end_a_copy(run: CopyRun, reply: Reply)
    requires
        fits(run.op, reply),
        reply is NotFound || reply is AlreadyExists || reply is Error,
    ensures
        ({
            let next = copy_next(run, reply);
            let first_try = run.op is OpenTemp && run.retried is None;
            &&& next.op == if run.op is RemoveTemp {
                CopyOp::Failed
            } else if first_try && reply is NotFound {
                CopyOp::CreateParent
            } else if first_try && reply is AlreadyExists {
                CopyOp::RemoveLeftover
            } else {
                CopyOp::RemoveTemp
            }
            &&& next.op is CreateParent || next.op is RemoveLeftover ==> next.retried is Some
            &&& next.size == run.size && next.mode == run.mode && next.fsync == run.fsync
        }),
{
}

/// A second try, once made, is remembered.
pub proof fn second_tries_are_remembered(run: CopyRun, reply: Reply)
    requires
        fits(run.op, reply),
    ensures
        run.retried is Some ==> copy_next(run, reply).retried == run.retried,
        copy_next(run, reply).retried is Some && run.retried is None ==> run.op is OpenTemp && (
        reply is NotFound || reply is AlreadyExists),
{
}

/// A copy in which everything goes well copies the file, and tells how many bytes
/// were moved.
pub proof fn smooth_copies_succeed(fsync: bool, size: u64, mode: u32, moved: u64)
    ensures
        ({
            let front = seq![
                Reply::Done,
                Reply::Meta { size, mode },
                Reply::Done,
                Reply::Moved(moved),
                Reply::Done,
            ];
            let back = seq![Reply::Done, Reply::Done, Reply::Done];
            let replies = if fsync {
                front + seq![Reply::Done] + back
            } else {
                front + back
            };
            let run = played(copy_start(fsync), replies);
            &&& plausible(copy_start(fsync), replies)
            &&& run.op is Copied
            &&& run.total == moved
        }),
{
    let start = copy_start(fsync);
    let none = Seq::<Reply>::empty();
    let r1 = none.push(Reply::Done);
    let r2 = r1.push(Reply::Meta { size, mode });
    let r3 = r2.push(Reply::Done);
    let r4 = r3.push(Reply::Moved(moved));
    let r5 = r4.push(Reply::Done);
    lemma_more(start, none, Reply::Done);
    lemma_more(start, r1, Reply::Meta { size, mode });
    lemma_more(start, r2, Reply::Done);
    lemma_more(start, r3, Reply::Moved(moved));
    lemma_more(start, r4, Reply::Done);
    let r6 = if fsync {
        lemma_more(start, r5, Reply::Done);
        r5.push(Reply::Done)
    } else {
        r5
    };
    let r7 = r6.push(Reply::Done);
    let r8 = r7.push(Reply::Done);
    let r9 = r8.push(Reply::Done);
    lemma_more(start, r6, Reply::Done);
    lemma_more(start, r7, Reply::Done);
    lemma_more(start, r8, Reply::Done);
    let front = seq![
        Reply::Done,
        Reply::Meta { size, mode },
        Reply::Done,
        Reply::Moved(moved),
        Reply::Done,
    ];
    let back = seq![Reply::Done, Reply::Done, Reply::Done];
    if fsync {
        assert(front + seq![Reply::Done] + back =~= r9);
    } else {
        assert(front + back =~= r9);
    }
}

/// One reply more.
proof fn lemma_more(run: CopyRun, replies: Seq<Reply>, reply: Reply)
    requires
        plausible(run, replies),
        fits(played(run, replies).op, reply),
    ensures
        plausible(run, replies.push(reply)),
        played(run, replies.push(reply)) == copy_next(played(run, replies), reply),
{
    let more = replies.push(reply);
    assert(more.drop_last() =~= replies);
    assert forall|k: int| 0 <= k < more.len() implies fits(
        played(run, #[trigger] more.take(k)).op,
        more[k],
    ) by {
        if k < replies.len() {
            assert(more.take(k) =~= replies.take(k));
        } else {
            assert(more.take(k) =~= replies);
        }
    }
}

/// All that a read brought is written, and nothing else; the file ends where a
/// read brings nothing. A failed read ends the copy. An interrupted one is
/// repeated, unless the file is moved in chunks.
pub proof fn every_byte_read_is_written(
    transfer: &Transfer,
    outcome: ReadOutcome,
    step: ReadStep,
)
    requires
        call_ensures(Transfer::after_read, (transfer, outcome), step),
    ensures
        step is End <==> outcome == ReadOutcome::Bytes(0),
        step matches ReadStep::Write(n) ==> n > 0 && outcome == ReadOutcome::Bytes(n),
        outcome matches ReadOutcome::Bytes(n) ==> n > 0 ==> step == ReadStep::Write(n),
        step is Again <==> outcome is Interrupted && !transfer.chunked,
        step is Fail <==> outcome is Error || (outcome is Interrupted && transfer.chunked),
{
}

/// Bytes are reported as they are written if the file is moved in chunks, and all
/// of them at the end otherwise: together, exactly the bytes written.
pub proof fn every_byte_is_reported_once(
    chunked: bool,
    start: Transfer,
    transfer: &mut Transfer,
    n: usize,
    now: Option<u64>,
    last: &mut Transfer,
    rest: Option<u64>,
)
    requires
        call_ensures(Transfer::start, (chunked,), start),
        old(transfer).wf(),
        call_ensures(Transfer::written, (transfer, n), now),
        old(last).wf(),
        call_ensures(Transfer::end, (last,), rest),
    ensures
        start.chunked == chunked && start.total == 0 && start.reported == 0,
        final(transfer).total == old(transfer).total + n,
        now is Some <==> old(transfer).chunked,
        now matches Some(bytes) ==> bytes == n,
        rest is Some <==> !old(last).chunked,
        rest matches Some(bytes) ==> bytes == old(last).total,
        final(last).total == old(last).total,
{
}

/// Every request can be answered by saying that it failed. The metadata is answered with
/// size and mode, the contents with a number of bytes, and all else by saying that it
/// is done. A copy that is over takes no answer.
pub proof fn requests_take_their_replies(op: CopyOp, reply: Reply)
    ensures
        fits(op, reply) <==> !(op is Copied || op is Failed) && match reply {
            Reply::Done => !(op is ReadMeta || op is CopySmall || op is CopyChunked),
            Reply::Meta { .. } => op is ReadMeta,
            Reply::Moved(_) => op is CopySmall || op is CopyChunked,
            Reply::NotFound | Reply::AlreadyExists | Reply::Error => true,
        },
{
}

} // verus!
