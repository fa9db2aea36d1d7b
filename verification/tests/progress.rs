use dino_copy::progress::{
    spinner_frame, worker_line, worker_lines, SPINNER_FRAMES, SPINNER_FRAME_MS,
};
use std::time::Duration;

fn frame(elapsed: Duration) -> &'static str {
    spinner_frame(elapsed.as_millis())
}

#[test]
fn frame_zero_is_shown_first() {
    assert_eq!(frame(Duration::ZERO), SPINNER_FRAMES[0]);
}

#[test]
fn a_frame_is_held_for_the_full_interval() {
    // Just before the interval elapses we are still on the same frame,
    // otherwise the dwell time would be shorter than configured.
    let almost = Duration::from_millis(SPINNER_FRAME_MS as u64 - 1);
    assert_eq!(frame(almost), SPINNER_FRAMES[0]);
}

#[test]
fn the_frame_advances_after_one_interval() {
    let one = Duration::from_millis(SPINNER_FRAME_MS as u64);
    assert_eq!(frame(one), SPINNER_FRAMES[1]);
}

#[test]
fn the_frames_wrap_around_after_a_full_cycle() {
    // Without the modulo this would panic on an out-of-bounds index once
    // the run outlives one cycle, which every real run does.
    let cycle = SPINNER_FRAME_MS as u64 * SPINNER_FRAMES.len() as u64;
    assert_eq!(frame(Duration::from_millis(cycle)), SPINNER_FRAMES[0]);
    assert_eq!(
        frame(Duration::from_millis(cycle * 7 + SPINNER_FRAME_MS as u64 * 3)),
        SPINNER_FRAMES[3]
    );
}

#[test]
fn a_full_cycle_visits_every_frame_in_order() {
    let seen: Vec<&str> = (0..SPINNER_FRAMES.len())
        .map(|i| frame(Duration::from_millis(SPINNER_FRAME_MS as u64 * i as u64)))
        .collect();
    assert_eq!(seen, SPINNER_FRAMES.to_vec());
}

#[test]
fn one_hour_in_the_spinner_stays_calm() {
    // Guards the actual complaint: the frame must follow time, not the
    // number of copied bytes. Over an hour that is 8 frames per second.
    let expected_frames = 3600 * 1000 / SPINNER_FRAME_MS;
    assert_eq!(expected_frames, 28_800, "expected 8 frames per second");
}

#[test]
fn frames_are_the_braille_cycle() {
    assert_eq!(SPINNER_FRAMES.concat(), "⠋⠙⠹⠸⠼⠴⠦⠧⠇⠏");
    assert_eq!(spinner_frame(1249), "⠏");
    assert_eq!(spinner_frame(1250), "⠋");
}

#[test]
fn workers_share_lines_only_when_there_are_too_few() {
    assert_eq!(worker_lines(0), 1);
    assert_eq!(worker_lines(3), 3);
    assert_eq!(worker_line(2, 3), 2);
    assert_eq!(worker_line(3, 3), 0);
    assert_eq!(worker_line(7, 3), 1);
}
