use dino_copy::copy::{
    permission_bits, CopyOp, CopyRun, ReadOutcome, ReadStep, Reply, Transfer,
    CHUNK_PROGRESS_THRESHOLD, COPY_BUFFERS, COPY_CHUNK, SMALL_COPY_BUF, TEMP_MODE,
};

/// Runs a copy to its end; `reply` answers each request.
fn play(fsync: bool, mut reply: impl FnMut(CopyOp) -> Reply) -> (Vec<CopyOp>, CopyRun) {
    let mut run = CopyRun::start(fsync);
    let mut seen = Vec::new();
    while !run.is_over() {
        seen.push(run.op);
        let answer = reply(run.op);
        run.reply(answer);
    }
    (seen, run)
}

fn smooth(size: u64) -> impl FnMut(CopyOp) -> Reply {
    move |op| match op {
        CopyOp::ReadMeta => Reply::Meta { size, mode: 0o100640 },
        CopyOp::CopySmall | CopyOp::CopyChunked => Reply::Moved(size),
        _ => Reply::Done,
    }
}

#[test]
fn a_small_file_is_copied_step_by_step() {
    let (seen, run) = play(false, smooth(7));
    assert_eq!(
        seen,
        vec![
            CopyOp::OpenSource,
            CopyOp::ReadMeta,
            CopyOp::OpenTemp,
            CopyOp::CopySmall,
            CopyOp::Flush,
            CopyOp::SetPermissions(0o640),
            CopyOp::SetTimes,
            CopyOp::Rename,
        ]
    );
    assert_eq!(run.op, CopyOp::Copied);
    assert_eq!(run.total, 7);
}

#[test]
fn a_large_file_is_copied_in_chunks_and_synced_when_asked_for() {
    let (seen, _) = play(true, smooth(CHUNK_PROGRESS_THRESHOLD + 1));
    assert_eq!(
        seen[3..6].to_vec(),
        vec![CopyOp::CopyChunked, CopyOp::Flush, CopyOp::SyncFile]
    );
    let (seen, _) = play(true, smooth(CHUNK_PROGRESS_THRESHOLD));
    assert_eq!(seen[3], CopyOp::CopySmall);
}

#[test]
fn a_missing_parent_is_created_once() {
    let mut tries = 0;
    let mut rest = smooth(1);
    let (seen, run) = play(false, |op| {
        if op == CopyOp::OpenTemp {
            tries += 1;
            if tries == 1 {
                return Reply::NotFound;
            }
        }
        rest(op)
    });
    assert_eq!(
        seen[2..5].to_vec(),
        vec![CopyOp::OpenTemp, CopyOp::CreateParent, CopyOp::OpenTemp]
    );
    assert_eq!(run.op, CopyOp::Copied);
}

#[test]
fn a_leftover_is_removed_once() {
    let mut rest = smooth(1);
    let (seen, run) = play(false, |op| {
        if op == CopyOp::OpenTemp {
            return Reply::AlreadyExists;
        }
        rest(op)
    });
    assert_eq!(
        seen,
        vec![
            CopyOp::OpenSource,
            CopyOp::ReadMeta,
            CopyOp::OpenTemp,
            CopyOp::RemoveLeftover,
            CopyOp::OpenTemp,
            CopyOp::RemoveTemp,
        ]
    );
    assert_eq!(run.op, CopyOp::Failed);
}

#[test]
fn every_failure_removes_the_temporary_file() {
    let ops = [
        CopyOp::OpenSource,
        CopyOp::ReadMeta,
        CopyOp::OpenTemp,
        CopyOp::CopySmall,
        CopyOp::Flush,
        CopyOp::SyncFile,
        CopyOp::SetPermissions(0o640),
        CopyOp::SetTimes,
        CopyOp::Rename,
    ];
    for bad in ops {
        let mut rest = smooth(1);
        let (seen, run) = play(true, |op| if op == bad { Reply::Error } else { rest(op) });
        assert_eq!(run.op, CopyOp::Failed, "{bad:?}");
        assert_eq!(seen[seen.len() - 2..].to_vec(), vec![bad, CopyOp::RemoveTemp]);
        assert!(bad == CopyOp::Rename || !seen.contains(&CopyOp::Rename));
    }
}

#[test]
fn removing_the_temporary_file_may_fail() {
    let (seen, run) = play(false, |_| Reply::NotFound);
    assert_eq!(seen, vec![CopyOp::OpenSource, CopyOp::RemoveTemp]);
    assert_eq!(run.op, CopyOp::Failed);
}

#[test]
fn sizes_and_modes() {
    assert_eq!(CHUNK_PROGRESS_THRESHOLD, 8_388_608);
    assert_eq!(COPY_CHUNK, 2_097_152);
    assert_eq!(SMALL_COPY_BUF, 262_144);
    assert_eq!(COPY_BUFFERS, 4);
    assert_eq!(TEMP_MODE, 0o600);
    assert_eq!(permission_bits(0o104755), 0o4755);
}

#[test]
fn small_transfers_report_one_batch() {
    let mut t = Transfer::start(false);
    assert_eq!(t.after_read(ReadOutcome::Bytes(5)), ReadStep::Write(5));
    assert_eq!(t.written(5), None);
    assert_eq!(t.after_read(ReadOutcome::Interrupted), ReadStep::Again);
    assert_eq!(t.written(3), None);
    assert_eq!(t.after_read(ReadOutcome::Bytes(0)), ReadStep::End);
    assert_eq!(t.end(), Some(8));
    assert_eq!((t.total, t.reported), (8, 8));
    assert_eq!(t.after_read(ReadOutcome::Error), ReadStep::Fail);
}

#[test]
fn chunked_transfers_report_each_chunk() {
    let mut t = Transfer::start(true);
    assert_eq!(t.written(5), Some(5));
    assert_eq!(t.after_read(ReadOutcome::Interrupted), ReadStep::Fail);
    assert_eq!(t.written(3), Some(3));
    assert_eq!(t.end(), None);
    assert_eq!((t.total, t.reported), (8, 8));
}
