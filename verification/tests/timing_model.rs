use stepchart::schedule::Schedule;
use stepchart::timing::beat_to_time;
use stepchart::{BEAT_SCALE, TIME_SCALE};

fn bpm(entries: &[(i64, i64)]) -> Schedule {
    let mut s = Schedule::new();
    for &(beat, value) in entries {
        s.insert(beat * BEAT_SCALE, value * 1_000_000);
    }
    s
}

fn empty() -> Schedule {
    Schedule::new()
}

#[test]
fn four_beats_at_120_is_two_seconds() {
    let bpms = bpm(&[(0, 120)]);
    let t = beat_to_time(4 * BEAT_SCALE, &bpms, 0, &empty());
    assert_eq!(t, 2 * TIME_SCALE);
}

#[test]
fn beat_zero_is_the_offset() {
    let bpms = bpm(&[(0, 97), (13, 250)]);
    assert_eq!(beat_to_time(0, &bpms, 123_456, &empty()), 123_456);
    assert_eq!(beat_to_time(0, &empty(), 42, &empty()), 42);
}

#[test]
fn default_tempo_is_120() {
    // no breakpoints at all: one beat lasts half a second
    let t = beat_to_time(BEAT_SCALE, &empty(), 0, &empty());
    assert_eq!(t, TIME_SCALE / 2);
}

#[test]
fn tempo_change_mid_song() {
    // 4 beats at 120 (2 s), then 4 beats at 60 (4 s)
    let bpms = bpm(&[(0, 120), (4, 60)]);
    let t = beat_to_time(8 * BEAT_SCALE, &bpms, 0, &empty());
    assert_eq!(t, 6 * TIME_SCALE);
}

#[test]
fn stops_insert_flat_time() {
    let bpms = bpm(&[(0, 120)]);
    let mut stops = Schedule::new();
    // a pause of 1.5 s at beat 2
    stops.insert(2 * BEAT_SCALE, 1_500_000);
    assert_eq!(beat_to_time(4 * BEAT_SCALE, &bpms, 0, &stops), 3_500_000);
    // a pause after the target beat does not count
    assert_eq!(beat_to_time(BEAT_SCALE, &bpms, 0, &stops), 500_000);
    // a pause exactly on the target beat counts
    assert_eq!(beat_to_time(2 * BEAT_SCALE, &bpms, 0, &stops), 2_500_000);
}

#[test]
fn monotone_in_beat() {
    let bpms = bpm(&[(0, 180), (3, 60), (9, 240)]);
    let mut stops = Schedule::new();
    stops.insert(5 * BEAT_SCALE, 250_000);
    let mut last = -1;
    for b in 0..40 {
        let t = beat_to_time(b * BEAT_SCALE / 2, &bpms, 9_000, &stops);
        assert!(t >= last);
        last = t;
    }
}

#[test]
fn duplicate_breakpoint_replaces() {
    let mut s = Schedule::new();
    s.insert(0, 60_000_000);
    s.insert(0, 120_000_000);
    assert_eq!(s.len(), 1);
    let t = beat_to_time(4 * BEAT_SCALE, &s, 0, &empty());
    assert_eq!(t, 2 * TIME_SCALE);
}
