use stepchart::chart::parse_sched;
use stepchart::session::GameState;
use stepchart::timing::beat_to_time;
use stepchart::{BEAT_SCALE, MAX_STOP, MIN_BPM, PARSE_MAX, TIME_SCALE};

const SPEED: i64 = 1_500_000;

#[test]
fn round_trip_constant_bpm() {
    // a chart with no #STOPS and a single constant #BPMS entry of 0=120:
    // beat 4 lands exactly two seconds after an offset of 0
    let chart = "#TITLE:T;\n#OFFSET:0;\n#BPMS:0=120;\n";
    let bpms = parse_sched(chart, "#BPMS", MIN_BPM, PARSE_MAX, false);
    let stops = parse_sched(chart, "#STOPS", 0, MAX_STOP, true);
    assert_eq!(stops.len(), 0);
    let t = beat_to_time(4 * BEAT_SCALE, &bpms, 0, &stops);
    assert_eq!(t, 2 * TIME_SCALE);
}

#[test]
fn metadata_tags() {
    let chart = "#TITLE:Song;\n#ARTIST:Band;\n#MUSIC:a.mp3;\n#BACKGROUND:bg.png;\n\
                 #SAMPLESTART:12.5;\n#SAMPLELENGTH:30;\n#OFFSET:0;\n#BPMS:0=120;\n";
    let gs = GameState::new(chart, SPEED);
    assert_eq!(gs.title, "Song");
    assert_eq!(gs.artist, "Band");
    assert_eq!(gs.song, "a.mp3");
    assert_eq!(gs.bg, "bg.png");
    assert_eq!(gs.sample_start, 12_500_000);
    assert_eq!(gs.sample_len, 30_000_000);
    assert_eq!(gs.start_delay, 0);
    assert!(gs.arrows.is_empty());
}

#[test]
fn missing_tags_default() {
    let gs = GameState::new("#BPMS:0=120;\n", SPEED);
    assert_eq!(gs.title, "");
    assert_eq!(gs.sample_start, 0);
    assert_eq!(gs.sample_len, 0);
    assert!(gs.difficulties.is_empty());
    assert!(gs.all_arrows.is_empty());
}

#[test]
fn tap_note_times() {
    let chart = "#OFFSET:0;\n#BPMS:0=120;\n#NOTES:\nstyle:\nauthor:\nHard:\n\
                 0000\n1000\n0000\n0000\n;\n";
    let gs = GameState::new(chart, SPEED);
    assert_eq!(gs.difficulties, vec!["Hard"]);
    assert_eq!(gs.all_arrows.len(), 1);
    let notes = &gs.all_arrows[0];
    assert_eq!(notes.len(), 1);
    let a = notes[0];
    assert_eq!(a.lane, 0);
    assert!(!a.is_hold);
    // beat 1 at 120 BPM: half a second
    assert_eq!(a.hit_time, 500_000);
    assert_eq!(a.spawn_time, 500_000 - SPEED);
    assert_eq!(a.end_time, 0);
}

#[test]
fn offset_sign_is_discarded() {
    let chart = "#OFFSET:-3;\n#BPMS:0=120;\n#NOTES:\nstyle:\nauthor:\nEasy:\n1000\n;\n";
    let gs = GameState::new(chart, SPEED);
    let a = gs.all_arrows[0][0];
    assert_eq!(a.hit_time, 3 * TIME_SCALE);
}

#[test]
fn hold_pair_compiles_to_one_note() {
    // a 2 then a 3 in the same lane: one hold, hit at the 2, end at the 3
    let chart = "#OFFSET:0;\n#BPMS:0=120;\n#NOTES:\nstyle:\nauthor:\nHard:\n\
                 2000\n0000\n3000\n0000\n;\n";
    let gs = GameState::new(chart, SPEED);
    let notes = &gs.all_arrows[0];
    assert_eq!(notes.len(), 1);
    let a = notes[0];
    assert!(a.is_hold);
    assert_eq!(a.lane, 0);
    assert_eq!(a.hit_time, 0);
    assert_eq!(a.end_time, TIME_SCALE);
    assert_eq!(a.spawn_time, -SPEED);
}

#[test]
fn lone_tail_uses_stale_default() {
    // a 3 with no 2 before it: the hold's hit time is the register's
    // stale default, exactly 0
    let chart = "#OFFSET:0;\n#BPMS:0=120;\n#NOTES:\nstyle:\nauthor:\nHard:\n\
                 0000\n,\n0030\n;\n";
    let gs = GameState::new(chart, SPEED);
    let notes = &gs.all_arrows[0];
    assert_eq!(notes.len(), 1);
    let a = notes[0];
    assert!(a.is_hold);
    assert_eq!(a.lane, 2);
    assert_eq!(a.hit_time, 0);
    // the 3 sits on the second measure's first row: beat 4, two seconds
    assert_eq!(a.end_time, 2 * TIME_SCALE);
}

#[test]
fn measures_divide_four_beats() {
    // eight rows in one measure: half a beat each
    let chart = "#OFFSET:0;\n#BPMS:0=120;\n#NOTES:\nstyle:\nauthor:\nHard:\n\
                 1000\n0100\n0010\n0001\n1000\n0100\n0010\n0001\n;\n";
    let gs = GameState::new(chart, SPEED);
    let notes = &gs.all_arrows[0];
    assert_eq!(notes.len(), 8);
    for (i, a) in notes.iter().enumerate() {
        assert_eq!(a.lane, i % 4);
        assert_eq!(a.hit_time, (i as i64) * TIME_SCALE / 4);
    }
}

#[test]
fn malformed_entries_are_skipped() {
    let chart = "#OFFSET:0;\n#BPMS:0=120,junk,4=x,=,8=60;\n\
                 #NOTES:\nstyle:\nauthor:\nHard:\n\
                 1000\n0000\n0000\n0000\n,\n0000\n0000\n1000\n0000\n;\n";
    let gs = GameState::new(chart, SPEED);
    let notes = &gs.all_arrows[0];
    assert_eq!(notes.len(), 2);
    assert_eq!(notes[0].hit_time, 0);
    // beat 6 at a constant 120 BPM: three seconds
    assert_eq!(notes[1].hit_time, 3 * TIME_SCALE);
}

#[test]
fn stops_delay_later_notes() {
    // a half-second pause at beat 1: a note on beat 2 arrives at 1.5 s
    let chart = "#OFFSET:0;\n#BPMS:0=120;\n#STOPS:1=0.5;\n\
                 #NOTES:\nstyle:\nauthor:\nHard:\n0000\n0000\n1000\n0000\n;\n";
    let gs = GameState::new(chart, SPEED);
    assert_eq!(gs.all_arrows[0][0].hit_time, 1_500_000);
}

#[test]
fn stop_values_are_trimmed_bpm_values_are_not() {
    // a stop value parses with surrounding blanks; a tempo value does
    // not, so that entry is skipped and the default 120 BPM stays
    let chart = "#OFFSET:0;\n#BPMS:0= 90;\n#STOPS:1= 0.5 ;\n\
                 #NOTES:\nstyle:\nauthor:\nHard:\n0000\n0000\n1000\n0000\n;\n";
    let gs = GameState::new(chart, SPEED);
    assert_eq!(gs.all_arrows[0][0].hit_time, 1_500_000);
}

#[test]
fn declaration_block_spans_lines() {
    let chart = "#OFFSET:0;\n#BPMS:0=120\n,4=60\n;\n\
                 #NOTES:\nstyle:\nauthor:\nHard:\n\
                 0000\n0000\n0000\n0000\n,\n0000\n1000\n0000\n0000\n;\n";
    let gs = GameState::new(chart, SPEED);
    // beat 5: four beats at 120 (2 s) plus one beat at 60 (1 s)
    assert_eq!(gs.all_arrows[0][0].hit_time, 3 * TIME_SCALE);
}

#[test]
fn two_difficulties() {
    let chart = "#OFFSET:0;\n#BPMS:0=120;\n\
                 #NOTES:\nstyle:\nauthor:\nEasy:\n1000\n,\n;\n\
                 #NOTES:\nstyle:\nauthor:\nHard:\n1100\n,\n;\n";
    let gs = GameState::new(chart, SPEED);
    assert_eq!(gs.difficulties, vec!["Easy", "Hard"]);
    assert_eq!(gs.all_arrows.len(), 2);
    assert_eq!(gs.all_arrows[0].len(), 1);
    assert_eq!(gs.all_arrows[1].len(), 2);
}

#[test]
fn unterminated_measure_leaks_into_next_block() {
    // rows not closed by a comma before the next #NOTES stay pending:
    // the first block then contributes no section of its own, and its
    // rows land in the next difficulty's first measure
    let chart = "#OFFSET:0;\n#BPMS:0=120;\n\
                 #NOTES:\nstyle:\nauthor:\nEasy:\n1000\n;\n\
                 #NOTES:\nstyle:\nauthor:\nHard:\n1100\n;\n";
    let gs = GameState::new(chart, SPEED);
    assert_eq!(gs.difficulties, vec!["Easy", "Hard"]);
    assert_eq!(gs.all_arrows.len(), 1);
    assert_eq!(gs.all_arrows[0].len(), 3);
}

#[test]
fn start_selects_and_delays() {
    let chart = "#OFFSET:0;\n#BPMS:0=120;\n#NOTES:\nstyle:\nauthor:\nEasy:\n1000\n;\n";
    let mut gs = GameState::new(chart, SPEED);
    gs.start(0);
    assert_eq!(gs.arrows.len(), 1);
    // the first note spawns 1.5 s before beat 0: the one-second delay
    // grows by that lead
    assert_eq!(gs.start_delay, TIME_SCALE + SPEED);
    // an out-of-range difficulty yields an empty list, not a panic
    gs.start(7);
    assert!(gs.arrows.is_empty());
    assert_eq!(gs.start_delay, TIME_SCALE);
}

#[test]
fn menu_selection_clamps() {
    assert_eq!(GameState::menu_step(0, 3, true), 0);
    assert_eq!(GameState::menu_step(2, 3, true), 1);
    assert_eq!(GameState::menu_step(2, 3, false), 2);
    assert_eq!(GameState::menu_step(1, 3, false), 2);
    assert_eq!(GameState::menu_step(0, 0, false), 0);
    assert_eq!(GameState::menu_step(5, 2, false), 5);
}

#[test]
fn empty_chart_is_harmless() {
    let mut gs = GameState::new("", SPEED);
    assert!(gs.difficulties.is_empty());
    gs.start(0);
    assert!(gs.arrows.is_empty());
    assert_eq!(gs.start_delay, TIME_SCALE);
}
