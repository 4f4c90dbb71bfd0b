//! Core of a rhythm-game: a chart compiler that turns tempo/stop
//! declarations and ASCII note grids into absolutely-timed note events,
//! and a judgment engine that matches player input against that timeline.
//!
//! All musical quantities are held as fixed-point integers so that the
//! timing arithmetic is exact and verifiable: beats in micro-beats,
//! beats-per-minute in micro-BPM, and times in microseconds.
use vstd::prelude::*;

pub mod chart;
pub mod judge;
pub mod notes;
pub mod schedule;
pub mod session;
pub mod text;
pub mod timing;

verus! {

/// Micro-beats per beat.
pub const BEAT_SCALE: i64 = 1_000_000;

/// Microseconds per second.
pub const TIME_SCALE: i64 = 1_000_000;

/// Micro-beats per measure: a measure always spans four beats.
pub const MEASURE_UBEATS: i64 = 4_000_000;

/// Microseconds per minute; one beat at bpm b lasts US_PER_MIN / b.
pub const US_PER_MIN: i64 = 60_000_000;

/// The implicit tempo in effect before the first breakpoint, in micro-BPM.
pub const DEFAULT_BPM: i64 = 120_000_000;

/// Smallest accepted tempo, in micro-BPM (0.01 BPM). Entries below this
/// are dropped as malformed: a zero or negative tempo has no duration.
pub const MIN_BPM: i64 = 10_000;

/// Largest beat position a schedule entry or a note may sit on
/// (100 000 beats), in micro-beats.
pub const MAX_BEAT: i64 = 100_000_000_000;

/// Largest accepted single pause, in microseconds (10 000 s).
pub const MAX_STOP: i64 = 10_000_000_000;

/// Largest accepted chart-wide start offset, in microseconds.
pub const MAX_OFFSET: i64 = 1_000_000_000_000;

/// Largest magnitude the fixed-point number parser accepts, in micro-units.
pub const PARSE_MAX: i64 = 1_000_000_000_000_000;

/// Capacity of a tempo or pause schedule; entries past it are dropped.
pub const MAX_SCHED: usize = 4096;

/// Measures past this index are dropped; keeps every beat at or
/// below MAX_BEAT (MAX_MEASURES * MEASURE_UBEATS == MAX_BEAT).
pub const MAX_MEASURES: usize = 25_000;

/// Capacity of one difficulty's note list; notes past it are dropped.
pub const MAX_NOTES: usize = 1_000_000;

/// Every absolute time the timing model can produce stays below this
/// bound (microseconds), which keeps the judgment arithmetic in range.
pub const MAX_TIME: i64 = 1_000_000_000_000_000;

/// Largest accepted approach duration (spawn-to-hit), in microseconds.
pub const MAX_SPEED: i64 = 1_000_000_000_000;

/// Number of input columns.
pub const LANES: usize = 4;

/// Vertical position where a note spawns, in track units.
pub const SPAWN_Y: i64 = -50;

/// Vertical position of the judgment line, in track units.
pub const JUDGE_Y: i64 = 550;

/// A tap note past this position is missed; a hold's top past it is gone.
pub const KILL_Y: i64 = 600;

/// Distance a note travels from spawn to the judgment line.
pub const TRACK_SPAN: i64 = 600;

/// A press captures a note whose rendered distance is under this.
pub const CAPTURE_DIST: i64 = 50;

/// Tier boundaries of the capture award, in track units of distance.
pub const FLAWLESS_DIST: i64 = 5;

pub const PERFECT_DIST: i64 = 10;

pub const GOOD_DIST: i64 = 20;

/// Awards by tier, and the per-frame award for a held hold.
pub const SCORE_FLAWLESS: u64 = 500;

pub const SCORE_PERFECT: u64 = 300;

pub const SCORE_GOOD: u64 = 200;

pub const SCORE_OK: u64 = 100;

pub const HOLD_SCORE: u64 = 5;

/// A correctly held hold leaves once its top passes the judgment line
/// by this slack.
pub const HOLD_END_SLACK: i64 = 5;

} // verus!
