use stepchart::chart::Arrow;
use stepchart::session::GameState;
use stepchart::TIME_SCALE;

const SPEED: i64 = 1_500_000;

fn tap(lane: usize, hit_time: i64) -> Arrow {
    Arrow { lane, hit_time, spawn_time: hit_time - SPEED, is_hold: false, end_time: 0 }
}

fn hold(lane: usize, hit_time: i64, end_time: i64) -> Arrow {
    Arrow { lane, hit_time, spawn_time: hit_time - SPEED, is_hold: true, end_time }
}

fn session(arrows: Vec<Arrow>) -> GameState {
    GameState {
        difficulties: Vec::new(),
        start_delay: 0,
        arrows,
        song: String::new(),
        artist: String::new(),
        title: String::new(),
        bg: String::new(),
        sample_start: 0,
        sample_len: 0,
        all_arrows: Vec::new(),
    }
}

const NONE: [bool; 4] = [false, false, false, false];

fn press(lane: usize) -> [bool; 4] {
    let mut p = NONE;
    p[lane] = true;
    p
}

#[test]
fn flawless_tap_capture() {
    // a press edge exactly when the note sits on the judgment line
    let mut gs = session(vec![tap(0, 2 * TIME_SCALE)]);
    let (delta, combo) = gs.judge_frame(2 * TIME_SCALE, press(0), NONE, 0);
    assert_eq!(delta, 500);
    assert_eq!(combo, 1);
    assert!(gs.arrows.is_empty());
}

#[test]
fn capture_tiers() {
    // 1 track unit is SPEED/600 microseconds of lateness; aim inside
    // each tier's window
    let unit = SPEED / 600;
    for (off_units, expect) in [(0, 500u64), (7, 300u64), (15, 200u64), (40, 100u64)] {
        let mut gs = session(vec![tap(1, 2 * TIME_SCALE)]);
        let (delta, combo) = gs.judge_frame(2 * TIME_SCALE + off_units * unit, press(1), NONE, 3);
        assert_eq!(delta, expect);
        assert_eq!(combo, 4);
        assert!(gs.arrows.is_empty());
    }
}

#[test]
fn press_on_wrong_lane_does_nothing() {
    let mut gs = session(vec![tap(0, 2 * TIME_SCALE)]);
    let (delta, combo) = gs.judge_frame(2 * TIME_SCALE, press(1), NONE, 5);
    assert_eq!(delta, 0);
    assert_eq!(combo, 5);
    assert_eq!(gs.arrows.len(), 1);
}

#[test]
fn press_too_early_does_nothing() {
    // at 60 track units from the line the press is outside the window
    let unit = SPEED / 600;
    let mut gs = session(vec![tap(0, 2 * TIME_SCALE)]);
    let (delta, combo) = gs.judge_frame(2 * TIME_SCALE - 60 * unit, press(0), NONE, 2);
    assert_eq!(delta, 0);
    assert_eq!(combo, 2);
    assert_eq!(gs.arrows.len(), 1);
}

#[test]
fn one_press_consumes_one_note() {
    // two taps in the same lane, both in the window: the lane is
    // exclusive, so only the first is consumed this frame
    let a = tap(0, 2 * TIME_SCALE);
    let b = tap(0, 2 * TIME_SCALE + 10_000);
    let mut gs = session(vec![a, b]);
    let (delta, combo) = gs.judge_frame(2 * TIME_SCALE, press(0), NONE, 0);
    assert_eq!(delta, 500);
    assert_eq!(combo, 1);
    assert_eq!(gs.arrows.len(), 1);
    assert_eq!(gs.arrows[0].hit_time, b.hit_time);
}

#[test]
fn missed_tap_resets_combo() {
    // past the kill line with no press: the note is dropped and the
    // combo returns to zero
    let unit = SPEED / 600;
    let mut gs = session(vec![tap(0, 2 * TIME_SCALE)]);
    let (delta, combo) = gs.judge_frame(2 * TIME_SCALE + 51 * unit, NONE, NONE, 17);
    assert_eq!(delta, 0);
    assert_eq!(combo, 0);
    assert!(gs.arrows.is_empty());
}

#[test]
fn unspawned_note_is_untouched() {
    let mut gs = session(vec![tap(0, 5 * TIME_SCALE)]);
    let (delta, combo) = gs.judge_frame(TIME_SCALE, press(0), NONE, 9);
    assert_eq!(delta, 0);
    assert_eq!(combo, 9);
    assert_eq!(gs.arrows.len(), 1);
}

#[test]
fn held_hold_earns_each_frame() {
    let mut gs = session(vec![hold(2, 2 * TIME_SCALE, 4 * TIME_SCALE)]);
    let held = press(2);
    let (d1, c1) = gs.judge_frame(2 * TIME_SCALE + 100_000, NONE, held, 0);
    assert_eq!(d1, 5);
    assert_eq!(c1, 0);
    assert_eq!(gs.arrows.len(), 1);
    let (d2, _) = gs.judge_frame(2 * TIME_SCALE + 200_000, NONE, held, 0);
    assert_eq!(d2, 5);
    assert_eq!(gs.arrows.len(), 1);
}

#[test]
fn hold_not_held_can_be_captured() {
    // a press edge on a hold whose lane is not held consumes it whole
    let mut gs = session(vec![hold(3, 2 * TIME_SCALE, 4 * TIME_SCALE)]);
    let (delta, combo) = gs.judge_frame(2 * TIME_SCALE, press(3), NONE, 0);
    assert_eq!(delta, 500);
    assert_eq!(combo, 1);
    assert!(gs.arrows.is_empty());
}

#[test]
fn end_to_end_single_chart() {
    // one measure of four rows, a 1 in lane 0 on row 0, constant
    // 120 BPM, offset 0: a press at the hit time scores and clears
    let chart = "#OFFSET:0;\n#BPMS:0=120;\n#NOTES:\nstyle:\nauthor:\nHard:\n\
                 1000\n0000\n0000\n0000\n;\n";
    let mut gs = GameState::new(chart, SPEED);
    gs.start(0);
    assert_eq!(gs.start_delay, TIME_SCALE + SPEED);
    let hit = gs.arrows[0].hit_time;
    assert_eq!(hit, 0);
    let (delta, combo) = gs.judge_frame(hit, press(0), NONE, 0);
    assert!(delta > 0);
    assert_eq!(combo, 1);
    assert!(gs.arrows.is_empty());
}
