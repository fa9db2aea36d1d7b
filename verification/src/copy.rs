//! Copying a single file through a temporary file.
//!
//! [`CopyRun`] decides what to do next while one file is copied; the caller
//! does it and replies how it went. [`Transfer`] does the same for moving the
//! bytes. The laws say that the destination is only touched by the final
//! rename, once contents, permissions and times are complete, and that every
//! failure removes the temporary file.

use vstd::prelude::*;

verus! {

/// Threshold above which a file is copied in chunks (with progress) instead of
/// in one go. Small files do not benefit from fine-grained progress.
pub const CHUNK_PROGRESS_THRESHOLD: u64 = 8 * 1024 * 1024;

/// Chunk size of the double-buffered large-file copy.
pub const COPY_CHUNK: usize = 2 * 1024 * 1024;

/// Buffer size for files up to [`CHUNK_PROGRESS_THRESHOLD`].
///
/// Measured on 200 files of 4 MB each with `--jobs 1`: 8 KiB (the default of
/// `std::io::copy`) 1343 MB/s, 64 KiB 3502 MB/s, 256 KiB 4230 MB/s,
/// 1 MiB 4380 MB/s. So the knee lies below 256 KiB; beyond that there is
/// nothing left to gain, while the buffer is paid per copy thread.
pub const SMALL_COPY_BUF: usize = 256 * 1024;

/// Number of buffers rotating between reader and writer.
pub const COPY_BUFFERS: usize = 4;

/// Permissions of a temporary file while it is written: nobody else may read
/// the contents of a protected source meanwhile.
pub const TEMP_MODE: u32 = 0o600;

/// The permission bits of a mode, without the file type.
pub fn permission_bits(mode: u32) -> (bits: u32)
    ensures
        bits == mode & 0o7777,
{
    mode & 0o7777
}

/// Permission bits hold nothing else, and taking them twice changes nothing.
pub proof fn permission_bits_are_small(mode: u32)
    ensures
        mode & 0o7777 <= 0o7777,
        (mode & 0o7777) & 0o7777 == mode & 0o7777,
{
    assert(mode & 0o7777 <= 0o7777) by (bit_vector);
    assert((mode & 0o7777) & 0o7777 == mode & 0o7777) by (bit_vector);
}

// ---------------------------------------------------------------------------
// One file
// ---------------------------------------------------------------------------

/// What has to be done next while a file is copied.
#[derive(Debug, Clone, Copy, PartialEq, Eq, Structural)]
pub enum CopyOp {
    /// Open the source for reading.
    OpenSource,
    /// Read the metadata from the open descriptor.
    ReadMeta,
    /// Create the temporary file, with [`TEMP_MODE`] and failing if something
    /// is there already. That way a symlink pre-placed at the temporary path
    /// is not followed.
    OpenTemp,
    /// Create the directory that is to hold the temporary file.
    CreateParent,
    /// Remove what stands at the temporary path: a leftover from a crashed run
    /// or a pre-placed symlink, itself and not its target.
    RemoveLeftover,
    /// Copy the contents, reporting the progress as a single batch.
    CopySmall,
    /// Copy the contents double-buffered, reporting the progress per chunk.
    CopyChunked,
    /// Flush the temporary file.
    Flush,
    /// Persist the temporary file's contents to disk.
    SyncFile,
    /// Give the temporary file these permissions.
    SetPermissions(u32),
    /// Give the temporary file the source's mtime and atime.
    SetTimes,
    /// Rename the temporary file to the destination.
    Rename,
    /// Remove the temporary file, whether that works or not.
    RemoveTemp,
    /// Nothing: the file was copied.
    Copied,
    /// Nothing: the copy failed.
    Failed,
}

/// How it went.
#[derive(Debug, Clone, Copy, PartialEq, Eq, Structural)]
pub enum Reply {
    Done,
    /// The metadata that was read.
    Meta { size: u64, mode: u32 },
    /// The contents are copied, so many bytes.
    Moved(u64),
    /// It failed because something was not found.
    NotFound,
    /// It failed because something was there already.
    AlreadyExists,
    /// It failed for another reason.
    Error,
}

/// The reply says that it did not work.
pub open spec fn is_failure(reply: Reply) -> bool {
    reply is NotFound || reply is AlreadyExists || reply is Error
}

/// The reply can follow the request.
pub open spec fn fits(op: CopyOp, reply: Reply) -> bool {
    match op {
        CopyOp::Copied | CopyOp::Failed => false,
        CopyOp::ReadMeta => reply is Meta || is_failure(reply),
        CopyOp::CopySmall | CopyOp::CopyChunked => reply is Moved || is_failure(reply),
        _ => reply is Done || is_failure(reply),
    }
}

/// The state of a copy.
#[derive(Debug, Clone, Copy, PartialEq, Eq, Structural)]
pub struct CopyRun {
    /// What has to be done next.
    pub op: CopyOp,
    /// Persist the contents before the rename.
    pub fsync: bool,
    /// Creating the temporary file was given a second try, after this.
    pub retried: Option<CopyOp>,
    /// Size and mode of the source.
    pub size: u64,
    pub mode: u32,
    /// The bytes that were copied.
    pub total: u64,
}

/// The way of copying that suits a size.
pub open spec fn copy_way(size: u64) -> CopyOp {
    if size <= CHUNK_PROGRESS_THRESHOLD {
        CopyOp::CopySmall
    } else {
        CopyOp::CopyChunked
    }
}

/// The start of a copy.
pub open spec fn copy_start(fsync: bool) -> CopyRun {
    CopyRun { op: CopyOp::OpenSource, fsync, retried: None, size: 0, mode: 0, total: 0 }
}

/// The copy with another request.
pub open spec fn asking(run: CopyRun, op: CopyOp) -> CopyRun {
    CopyRun {
        op,
        fsync: run.fsync,
        retried: run.retried,
        size: run.size,
        mode: run.mode,
        total: run.total,
    }
}

/// The state after a reply.
pub open spec fn copy_next(run: CopyRun, reply: Reply) -> CopyRun {
    if run.op is RemoveTemp {
        asking(run, CopyOp::Failed)
    } else if run.op is OpenTemp && run.retried is None && reply is NotFound {
        CopyRun { retried: Some(CopyOp::CreateParent), ..asking(run, CopyOp::CreateParent) }
    } else if run.op is OpenTemp && run.retried is None && reply is AlreadyExists {
        CopyRun { retried: Some(CopyOp::RemoveLeftover), ..asking(run, CopyOp::RemoveLeftover) }
    } else if is_failure(reply) {
        asking(run, CopyOp::RemoveTemp)
    } else {
        match (run.op, reply) {
            (CopyOp::OpenSource, _) => asking(run, CopyOp::ReadMeta),
            (CopyOp::ReadMeta, Reply::Meta { size, mode }) => CopyRun {
                size,
                mode,
                ..asking(run, CopyOp::OpenTemp)
            },
            (CopyOp::CreateParent, _) => asking(run, CopyOp::OpenTemp),
            (CopyOp::RemoveLeftover, _) => asking(run, CopyOp::OpenTemp),
            (CopyOp::OpenTemp, _) => asking(run, copy_way(run.size)),
            (CopyOp::CopySmall, Reply::Moved(n)) => CopyRun {
                total: n,
                ..asking(run, CopyOp::Flush)
            },
            (CopyOp::CopyChunked, Reply::Moved(n)) => CopyRun {
                total: n,
                ..asking(run, CopyOp::Flush)
            },
            (CopyOp::Flush, _) => if run.fsync {
                asking(run, CopyOp::SyncFile)
            } else {
                asking(run, CopyOp::SetPermissions(run.mode & 0o7777))
            },
            (CopyOp::SyncFile, _) => asking(run, CopyOp::SetPermissions(run.mode & 0o7777)),
            (CopyOp::SetPermissions(_), _) => asking(run, CopyOp::SetTimes),
            (CopyOp::SetTimes, _) => asking(run, CopyOp::Rename),
            (CopyOp::Rename, _) => asking(run, CopyOp::Copied),
            _ => run,
        }
    }
}

impl CopyRun {
    /// Starts a copy. With `fsync`, the file contents are flushed to disk
    /// before the rename.
    pub fn start(fsync: bool) -> (run: CopyRun)
        ensures
            run == copy_start(fsync),
    {
        CopyRun { op: CopyOp::OpenSource, fsync, retried: None, size: 0, mode: 0, total: 0 }
    }

    /// Takes in how the request went.
    pub fn reply(&mut self, reply: Reply)
        requires
            fits(old(self).op, reply),
        ensures
            *final(self) == copy_next(*old(self), reply),
    {
        let failed = match reply {
            Reply::NotFound | Reply::AlreadyExists | Reply::Error => true,
            _ => false,
        };
        match self.op {
            CopyOp::RemoveTemp => {
                self.op = CopyOp::Failed;
                return ;
            },
            CopyOp::OpenTemp => {
                if self.retried.is_none() {
                    match reply {
                        // Parent missing (normally it was created before):
                        // create it once and retry.
                        Reply::NotFound => {
                            self.retried = Some(CopyOp::CreateParent);
                            self.op = CopyOp::CreateParent;
                            return ;
                        },
                        // Something stands at the temporary path: remove it
                        // and retry.
                        Reply::AlreadyExists => {
                            self.retried = Some(CopyOp::RemoveLeftover);
                            self.op = CopyOp::RemoveLeftover;
                            return ;
                        },
                        _ => {},
                    }
                }
            },
            _ => {},
        }
        if failed {
            self.op = CopyOp::RemoveTemp;
            return ;
        }
        match self.op {
            CopyOp::OpenSource => {
                self.op = CopyOp::ReadMeta;
            },
            CopyOp::ReadMeta => {
                if let Reply::Meta { size, mode } = reply {
                    self.size = size;
                    self.mode = mode;
                    self.op = CopyOp::OpenTemp;
                }
            },
            CopyOp::CreateParent | CopyOp::RemoveLeftover => {
                self.op = CopyOp::OpenTemp;
            },
            CopyOp::OpenTemp => {
                self.op = if self.size <= CHUNK_PROGRESS_THRESHOLD {
                    CopyOp::CopySmall
                } else {
                    CopyOp::CopyChunked
                };
            },
            CopyOp::CopySmall | CopyOp::CopyChunked => {
                if let Reply::Moved(n) = reply {
                    self.total = n;
                    self.op = CopyOp::Flush;
                }
            },
            CopyOp::Flush => {
                self.op = if self.fsync {
                    CopyOp::SyncFile
                } else {
                    CopyOp::SetPermissions(permission_bits(self.mode))
                };
            },
            CopyOp::SyncFile => {
                self.op = CopyOp::SetPermissions(permission_bits(self.mode));
            },
            CopyOp::SetPermissions(_) => {
                self.op = CopyOp::SetTimes;
            },
            CopyOp::SetTimes => {
                self.op = CopyOp::Rename;
            },
            CopyOp::Rename => {
                self.op = CopyOp::Copied;
            },
            CopyOp::RemoveTemp | CopyOp::Copied | CopyOp::Failed => {},
        }
    }

    /// True when nothing is left to do.
    pub fn is_over(&self) -> (over: bool)
        ensures
            over == (self.op is Copied || self.op is Failed),
    {
        match self.op {
            CopyOp::Copied | CopyOp::Failed => true,
            _ => false,
        }
    }
}

/// The state after a series of replies.
pub open spec fn played(run: CopyRun, replies: Seq<Reply>) -> CopyRun
    decreases replies.len(),
{
    if replies.len() == 0 {
        run
    } else {
        copy_next(played(run, replies.drop_last()), replies.last())
    }
}

/// The requests that the replies were given to.
pub open spec fn requests(run: CopyRun, replies: Seq<Reply>) -> Seq<CopyOp> {
    Seq::new(replies.len(), |k: int| played(run, replies.take(k)).op)
}

/// Each reply can follow its request.
pub open spec fn plausible(run: CopyRun, replies: Seq<Reply>) -> bool {
    forall|k: int|
        0 <= k < replies.len() ==> fits(
            played(run, #[trigger] replies.take(k)).op,
            replies[k],
        )
}

/// How many requests can still follow.
pub open spec fn still_to_come(run: CopyRun) -> nat {
    match run.op {
        CopyOp::OpenSource => 15,
        CopyOp::ReadMeta => 14,
        CopyOp::OpenTemp => if run.retried is None {
            13
        } else {
            11
        },
        CopyOp::CreateParent => 12,
        CopyOp::RemoveLeftover => 12,
        CopyOp::CopySmall => 10,
        CopyOp::CopyChunked => 10,
        CopyOp::Flush => 9,
        CopyOp::SyncFile => 8,
        CopyOp::SetPermissions(_) => 7,
        CopyOp::SetTimes => 6,
        CopyOp::Rename => 5,
        CopyOp::RemoveTemp => 1,
        CopyOp::Copied => 0,
        CopyOp::Failed => 0,
    }
}

/// A retry is only ever asked for once, so that a copy comes to an end.
pub open spec fn copy_wf(run: CopyRun) -> bool {
    &&& run.op is CreateParent ==> run.retried == Some(CopyOp::CreateParent)
    &&& run.op is RemoveLeftover ==> run.retried == Some(CopyOp::RemoveLeftover)
    &&& run.op is OpenSource || run.op is ReadMeta ==> run.retried is None
    &&& run.retried matches Some(op) ==> op is CreateParent || op is RemoveLeftover
}

/// Every reply brings a copy closer to its end.
pub proof fn copies_come_to_an_end(run: CopyRun, reply: Reply)
    requires
        copy_wf(run),
        fits(run.op, reply),
    ensures
        copy_wf(copy_next(run, reply)),
        still_to_come(copy_next(run, reply)) < still_to_come(run),
{
}

/// What was done, and worked, when a copy that has not failed gets to its
/// current request.
pub open spec fn done_so_far(run: CopyRun) -> Seq<CopyOp> {
    let opened = seq![CopyOp::OpenSource, CopyOp::ReadMeta, CopyOp::OpenTemp] + match run.retried {
        Some(op) => seq![op, CopyOp::OpenTemp],
        None => Seq::empty(),
    };
    let moved = opened.push(copy_way(run.size));
    let flushed = moved.push(CopyOp::Flush) + if run.fsync {
        seq![CopyOp::SyncFile]
    } else {
        Seq::empty()
    };
    let permitted = flushed.push(CopyOp::SetPermissions(run.mode & 0o7777));
    match run.op {
        CopyOp::OpenSource => Seq::empty(),
        CopyOp::ReadMeta => seq![CopyOp::OpenSource],
        CopyOp::OpenTemp => opened.drop_last(),
        CopyOp::CreateParent => opened.drop_last().drop_last(),
        CopyOp::RemoveLeftover => opened.drop_last().drop_last(),
        CopyOp::CopySmall => opened,
        CopyOp::CopyChunked => opened,
        CopyOp::Flush => moved,
        CopyOp::SyncFile => moved.push(CopyOp::Flush),
        CopyOp::SetPermissions(_) => flushed,
        CopyOp::SetTimes => permitted,
        CopyOp::Rename => permitted.push(CopyOp::SetTimes),
        CopyOp::Copied => permitted.push(CopyOp::SetTimes).push(CopyOp::Rename),
        CopyOp::RemoveTemp => Seq::empty(),
        CopyOp::Failed => Seq::empty(),
    }
}

/// What a request asks for goes with the metadata that was read.
spec fn copy_inv(run: CopyRun) -> bool {
    &&& copy_wf(run)
    &&& run.op is CopySmall || run.op is CopyChunked ==> run.op == copy_way(run.size)
    &&& run.op is SyncFile ==> run.fsync
    &&& run.op matches CopyOp::SetPermissions(m) ==> m == run.mode & 0o7777
}

/// A copy that has not failed has done all that comes before its request, in
/// this order: open the source, read its metadata, create the temporary file
/// (with at most one second try), copy the contents, flush them, persist them
/// if asked to, set permissions, set times, and rename last of all. So the
/// destination is only touched once the temporary file is complete.
pub proof fn rename_comes_last(fsync: bool, replies: Seq<Reply>)
    requires
        plausible(copy_start(fsync), replies),
        !(played(copy_start(fsync), replies).op is RemoveTemp),
        !(played(copy_start(fsync), replies).op is Failed),
    ensures
        requests(copy_start(fsync), replies) == done_so_far(played(copy_start(fsync), replies)),
    decreases replies.len(),
{
    let start = copy_start(fsync);
    if replies.len() > 0 {
        let rest = replies.drop_last();
        let run = played(start, rest);
        let after = played(start, replies);
        assert(replies.take(rest.len() as int) =~= rest);
        assert(fits(played(start, replies.take(rest.len() as int)).op, replies.last()));
        assert forall|k: int| 0 <= k < rest.len() implies fits(
            played(start, #[trigger] rest.take(k)).op,
            rest[k],
        ) by {
            assert(rest.take(k) =~= replies.take(k));
        }
        rename_comes_last(fsync, rest);
        lemma_copy_inv(fsync, rest);
        assert(requests(start, replies) =~= requests(start, rest).push(run.op)) by {
            assert forall|k: int| 0 <= k < rest.len() implies requests(start, replies)[k]
                == #[trigger] requests(start, rest)[k] by {
                assert(rest.take(k) =~= replies.take(k));
            }
        }
        let opened = seq![CopyOp::OpenSource, CopyOp::ReadMeta, CopyOp::OpenTemp];
        if run.op is OpenTemp {
            if after.op is CreateParent || after.op is RemoveLeftover {
                let all = opened + seq![after.op, CopyOp::OpenTemp];
                assert(all.drop_last().drop_last() =~= opened);
                assert((opened + Seq::<CopyOp>::empty()).drop_last().push(CopyOp::OpenTemp)
                    =~= opened);
            } else {
                let all = opened + match run.retried {
                    Some(op) => seq![op, CopyOp::OpenTemp],
                    None => Seq::empty(),
                };
                assert(all.drop_last().push(CopyOp::OpenTemp) =~= all);
            }
        } else if run.op is CreateParent || run.op is RemoveLeftover {
            let all = opened + seq![run.op, CopyOp::OpenTemp];
            assert(all.drop_last().drop_last().push(run.op) =~= all.drop_last());
        } else if run.op is ReadMeta {
            assert(seq![CopyOp::OpenSource].push(CopyOp::ReadMeta) =~= (opened + Seq::<
                CopyOp,
            >::empty()).drop_last());
        }
        assert(done_so_far(after) =~= done_so_far(run).push(run.op));
    } else {
        assert(requests(start, replies) =~= Seq::<CopyOp>::empty());
    }
}

proof fn lemma_copy_inv(fsync: bool, replies: Seq<Reply>)
    requires
        plausible(copy_start(fsync), replies),
    ensures
        copy_inv(played(copy_start(fsync), replies)),
        played(copy_start(fsync), replies).fsync == fsync,
    decreases replies.len(),
{
    let start = copy_start(fsync);
    if replies.len() > 0 {
        let rest = replies.drop_last();
        assert(replies.take(rest.len() as int) =~= rest);
        assert(fits(played(start, replies.take(rest.len() as int)).op, replies.last()));
        assert forall|k: int| 0 <= k < rest.len() implies fits(
            played(start, #[trigger] rest.take(k)).op,
            rest[k],
        ) by {
            assert(rest.take(k) =~= replies.take(k));
        }
        lemma_copy_inv(fsync, rest);
    }
}

/// A copy that failed ended by removing the temporary file, and the rename
/// was not carried out.
pub proof fn failures_clean_up(fsync: bool, replies: Seq<Reply>)
    requires
        plausible(copy_start(fsync), replies),
        played(copy_start(fsync), replies).op is Failed,
    ensures
        replies.len() >= 2,
        requests(copy_start(fsync), replies).last() is RemoveTemp,
        forall|k: int|
            0 <= k < replies.len() && (#[trigger] requests(copy_start(fsync), replies)[k])
                is Rename ==> is_failure(replies[k]),
{
    let start = copy_start(fsync);
    let n = replies.len() as int;
    assert(n > 0);
    assert(replies.take(n - 1) =~= replies.drop_last());
    assert(fits(played(start, replies.take(n - 1)).op, replies[n - 1]));
    assert(played(start, replies.take(n - 1)).op is RemoveTemp);
    if n == 1 {
        assert(replies.take(0) =~= Seq::<Reply>::empty());
    }
    assert forall|k: int|
        0 <= k < n && (#[trigger] requests(start, replies)[k]) is Rename implies is_failure(
        replies[k],
    ) by {
        let part = replies.take(k + 1);
        assert(part.drop_last() =~= replies.take(k));
        if !is_failure(replies[k]) {
            assert(fits(played(start, replies.take(k)).op, replies[k]));
            assert(played(start, part).op is Copied);
            if k + 1 < n {
                assert(fits(played(start, replies.take(k + 1)).op, replies[k + 1]));
            } else {
                assert(part =~= replies);
            }
        }
    }
}

// ---------------------------------------------------------------------------
// The bytes of one file
// ---------------------------------------------------------------------------

/// What a read brought.
#[derive(Debug, Clone, Copy, PartialEq, Eq, Structural)]
pub enum ReadOutcome {
    /// So many bytes; none at the end of the file.
    Bytes(usize),
    /// The call was interrupted by a signal.
    Interrupted,
    /// The read failed.
    Error,
}

/// What has to be done after a read.
#[derive(Debug, Clone, Copy, PartialEq, Eq, Structural)]
pub enum ReadStep {
    /// Write so many bytes.
    Write(usize),
    /// Read again.
    Again,
    /// All contents are there.
    End,
    /// Give up.
    Fail,
}

/// Moving the bytes of one file.
#[derive(Debug, Clone, Copy, PartialEq, Eq, Structural)]
pub struct Transfer {
    /// In chunks, with progress per chunk.
    pub chunked: bool,
    /// Bytes written so far.
    pub total: u64,
    /// Bytes reported to the progress display so far.
    pub reported: u64,
}

impl Transfer {
    /// Progress is reported per chunk, or not before the end.
    pub open spec fn wf(self) -> bool {
        self.reported == if self.chunked {
            self.total
        } else {
            0
        }
    }

    /// Starts moving bytes.
    pub fn start(chunked: bool) -> (transfer: Transfer)
        ensures
            transfer == (Transfer { chunked, total: 0, reported: 0 }),
            transfer.wf(),
    {
        Transfer { chunked, total: 0, reported: 0 }
    }

    /// What has to be done after a read. An interrupted read is not an error
    /// but read again, unless a reader thread of its own reads ahead in
    /// chunks.
    pub fn after_read(&self, outcome: ReadOutcome) -> (step: ReadStep)
        ensures
            step == match outcome {
                ReadOutcome::Bytes(n) => if n == 0 {
                    ReadStep::End
                } else {
                    ReadStep::Write(n)
                },
                ReadOutcome::Interrupted => if self.chunked {
                    ReadStep::Fail
                } else {
                    ReadStep::Again
                },
                ReadOutcome::Error => ReadStep::Fail,
            },
    {
        match outcome {
            ReadOutcome::Bytes(n) => {
                if n == 0 {
                    ReadStep::End
                } else {
                    ReadStep::Write(n)
                }
            },
            ReadOutcome::Interrupted => {
                if self.chunked {
                    ReadStep::Fail
                } else {
                    ReadStep::Again
                }
            },
            ReadOutcome::Error => ReadStep::Fail,
        }
    }

    /// Counts bytes that were written, and tells how many of them have to be
    /// reported at once.
    pub fn written(&mut self, n: usize) -> (report: Option<u64>)
        requires
            old(self).wf(),
            old(self).total + n <= u64::MAX,
        ensures
            final(self).wf(),
            final(self).chunked == old(self).chunked,
            final(self).total == old(self).total + n,
            report == if old(self).chunked {
                Some(n as u64)
            } else {
                None
            },
            final(self).reported == old(self).reported + match report {
                Some(b) => b as int,
                None => 0,
            },
    {
        self.total += n as u64;
        if self.chunked {
            self.reported += n as u64;
            Some(n as u64)
        } else {
            None
        }
    }

    /// At the end of the file: tells how many bytes have to be reported still.
    /// All that was written is reported then.
    pub fn end(&mut self) -> (report: Option<u64>)
        requires
            old(self).wf(),
        ensures
            final(self).total == old(self).total,
            final(self).chunked == old(self).chunked,
            final(self).reported == final(self).total,
            report == if old(self).chunked {
                None
            } else {
                Some(old(self).total)
            },
            final(self).reported == old(self).reported + match report {
                Some(b) => b as int,
                None => 0,
            },
    {
        if self.chunked {
            None
        } else {
            self.reported = self.total;
            Some(self.total)
        }
    }
}

/// The bytes of a series of reads together.
pub open spec fn sum(reads: Seq<usize>) -> int
    decreases reads.len(),
{
    if reads.len() == 0 {
        0
    } else {
        sum(reads.drop_last()) + reads.last()
    }
}

/// A transfer that wrote what these reads brought.
pub open spec fn is_after(transfer: Transfer, chunked: bool, reads: Seq<usize>) -> bool {
    transfer.chunked == chunked && transfer.total == sum(reads) && transfer.wf()
}

/// Writing what one read more brought, as [`Transfer::written`] counts it,
/// keeps the count exact; so at the end of the file exactly the bytes that were
/// read have been written and reported.
pub proof fn transfers_count_every_byte(
    before: Transfer,
    after: Transfer,
    chunked: bool,
    reads: Seq<usize>,
    n: usize,
)
    requires
        is_after(before, chunked, reads),
        before.total + n <= u64::MAX,
        after.wf(),
        after.chunked == before.chunked,
        after.total == before.total + n,
    ensures
        is_after(after, chunked, reads.push(n)),
{
    assert(reads.push(n).drop_last() =~= reads);
}

} // verus!
