//! The arithmetic behind the progress display.

use vstd::prelude::*;

verus! {

/// Frames of the progress spinner.
pub const SPINNER_FRAMES: [&'static str; 10] = [
    "⠋",
    "⠙",
    "⠹",
    "⠸",
    "⠼",
    "⠴",
    "⠦",
    "⠧",
    "⠇",
    "⠏",
];

/// How long a single spinner frame stays on screen.
pub const SPINNER_FRAME_MS: u128 = 125;

/// The number of the frame that is shown after so many milliseconds.
pub open spec fn frame_number(elapsed_ms: u128) -> int {
    (elapsed_ms / SPINNER_FRAME_MS) as usize as int % 10
}

/// Picks the spinner frame for the elapsed time in milliseconds.
///
/// Driven by wall-clock time rather than by the progress bar's own ticks: those
/// advance on every accepted increment, up to 1000 times per second on a fast
/// disk. That is far beyond the ~20 redraws per second that are actually
/// painted, so the frame index would jump by dozens between two draws and the
/// spinner would read as flicker. Its speed would also depend on the copy
/// throughput instead of on time.
pub fn spinner_frame(elapsed_ms: u128) -> (frame: &'static str)
    ensures
        frame@ == SPINNER_FRAMES@[frame_number(elapsed_ms)]@,
{
    let index = (elapsed_ms / SPINNER_FRAME_MS) as usize % 10;
    SPINNER_FRAMES[index]
}

/// The frame depends on time alone: it is held for a full interval, the next
/// one follows after it, and after ten intervals the first one comes again.
pub proof fn spinner_follows_time(k: nat, rest: nat)
    requires
        rest < SPINNER_FRAME_MS,
        k + 10 <= usize::MAX,
    ensures
        frame_number((k * 125 + rest) as u128) == k % 10,
        frame_number(((k + 10) * 125 + rest) as u128) == frame_number((k * 125 + rest) as u128),
{
    let ms = (k * 125 + rest) as u128;
    assert(ms as int == k * 125 + rest);
    assert((k * 125 + rest) / 125 == k) by (nonlinear_arith)
        requires
            rest < 125,
    ;
    let later = ((k + 10) * 125 + rest) as u128;
    assert(later as int == (k + 10) * 125 + rest);
    assert(((k + 10) * 125 + rest) / 125 == k + 10) by (nonlinear_arith)
        requires
            rest < 125,
    ;
    assert((ms / SPINNER_FRAME_MS) as int == k);
    assert((later / SPINNER_FRAME_MS) as int == k + 10);
}

/// How many status lines there are for so many copy workers: one for each, and
/// one at least.
pub fn worker_lines(jobs: usize) -> (lines: usize)
    ensures
        lines == if jobs == 0 {
            1
        } else {
            jobs
        },
{
    if jobs == 0 {
        1
    } else {
        jobs
    }
}

/// The status line of a copy worker. On a fallback path the number of a worker
/// can exceed the number of lines; then workers share a line.
pub fn worker_line(worker: usize, lines: usize) -> (line: usize)
    requires
        lines > 0,
    ensures
        line == worker % lines,
        line < lines,
        worker < lines ==> line == worker,
{
    let line = worker % lines;
    proof {
        if worker < lines {
            vstd::arithmetic::div_mod::lemma_small_mod(worker as nat, lines as nat);
        }
    }
    line
}

} // verus!
