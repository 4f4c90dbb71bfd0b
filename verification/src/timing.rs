//! The timing model: converts a beat position to an absolute time under
//! a tempo schedule and a pause schedule, all in exact fixed-point
//! arithmetic (micro-beats, micro-BPM, microseconds).
use vstd::prelude::*;
use vstd::arithmetic::div_mod::{
    lemma_div_pos_is_pos,
    lemma_div_is_ordered,
    lemma_div_is_ordered_by_denominator,
    lemma_div_by_multiple,
    lemma_div_of0,
};
use crate::schedule::{SchedEntry, Schedule, sched_wf, sorted_by_beat, values_in};
use crate::{DEFAULT_BPM, MAX_BEAT, MAX_OFFSET, MAX_SCHED, MAX_STOP, MAX_TIME, MIN_BPM, PARSE_MAX,
    US_PER_MIN};

verus! {

/// Time spent crossing the tempo segments of `entries` up to `beat`,
/// starting from `last_beat` with `last_bpm` in force: each breakpoint
/// at or before `beat` contributes delta-beats * one minute / bpm, and
/// the stretch after the last such breakpoint contributes the rest.
pub open spec fn seg_time(beat: int, entries: Seq<SchedEntry>, last_beat: int, last_bpm: int) -> int
    decreases entries.len(),
{
    if entries.len() == 0 || beat < entries[0].beat {
        (beat - last_beat) * (US_PER_MIN as int) / last_bpm
    } else {
        (entries[0].beat - last_beat) * (US_PER_MIN as int) / last_bpm + seg_time(
            beat,
            entries.drop_first(),
            entries[0].beat as int,
            entries[0].value as int,
        )
    }
}

/// Sum of every pause declared at or before `beat`.
pub open spec fn stops_sum(beat: int, entries: Seq<SchedEntry>) -> int
    decreases entries.len(),
{
    if entries.len() == 0 {
        0
    } else {
        (if entries[0].beat <= beat {
            entries[0].value as int
        } else {
            0
        }) + stops_sum(beat, entries.drop_first())
    }
}

/// Absolute time of a beat: the chart offset, plus the walk of the
/// tempo schedule from beat 0 at the default tempo, plus every pause
/// at or before the beat.
pub open spec fn beat_time(beat: int, bpms: Seq<SchedEntry>, offset: int, stops: Seq<SchedEntry>) -> int {
    offset + seg_time(beat, bpms, 0, DEFAULT_BPM as int) + stops_sum(beat, stops)
}

/// One tempo segment's duration is between 0 and delta * 6000 (the
/// duration at the slowest accepted tempo).
pub proof fn lemma_div_time_bound(d: int, bpm: int)
    requires
        0 <= d,
        MIN_BPM <= bpm,
    ensures
        0 <= d * (US_PER_MIN as int) / bpm <= d * 6000,
{
    let c = US_PER_MIN as int;
    lemma_div_pos_is_pos(d * c, bpm);
    lemma_div_is_ordered_by_denominator(d * c, MIN_BPM as int, bpm);
    assert(d * c == (d * 6000) * (MIN_BPM as int));
    lemma_div_by_multiple(d * 6000, MIN_BPM as int);
}

pub proof fn lemma_seg_time_bounds(beat: int, entries: Seq<SchedEntry>, last_beat: int, last_bpm: int)
    requires
        sorted_by_beat(entries),
        values_in(entries, MIN_BPM as int, PARSE_MAX as int),
        MIN_BPM <= last_bpm,
        0 <= last_beat <= beat,
        entries.len() > 0 ==> last_beat <= entries[0].beat,
    ensures
        0 <= seg_time(beat, entries, last_beat, last_bpm),
        seg_time(beat, entries, last_beat, last_bpm) <= (beat - last_beat) * 6000,
    decreases entries.len(),
{
    if entries.len() == 0 || beat < entries[0].beat {
        lemma_div_time_bound(beat - last_beat, last_bpm);
    } else {
        let e = entries[0];
        let t = entries.drop_first();
        assert(forall|j: int| 0 <= j < t.len() ==> t[j] == entries[j + 1]);
        lemma_div_time_bound(e.beat - last_beat, last_bpm);
        lemma_seg_time_bounds(beat, t, e.beat as int, e.value as int);
    }
}

pub proof fn lemma_stops_sum_bounds(beat: int, entries: Seq<SchedEntry>)
    requires
        values_in(entries, 0, MAX_STOP as int),
    ensures
        0 <= stops_sum(beat, entries),
        stops_sum(beat, entries) <= entries.len() * (MAX_STOP as int),
    decreases entries.len(),
{
    if entries.len() > 0 {
        let t = entries.drop_first();
        assert(forall|j: int| 0 <= j < t.len() ==> t[j] == entries[j + 1]);
        lemma_stops_sum_bounds(beat, t);
        assert(entries.len() * (MAX_STOP as int) == (t.len() as int + 1) * (MAX_STOP as int));
    }
}

/// Every reachable time is non-negative and below MAX_TIME.
pub proof fn lemma_beat_time_bounds(beat: int, bpms: Seq<SchedEntry>, offset: int, stops: Seq<SchedEntry>)
    requires
        sched_wf(bpms, MIN_BPM as int, PARSE_MAX as int),
        sched_wf(stops, 0, MAX_STOP as int),
        0 <= beat <= MAX_BEAT,
        0 <= offset <= MAX_OFFSET,
    ensures
        offset <= beat_time(beat, bpms, offset, stops) <= MAX_TIME,
{
    if bpms.len() > 0 {
        assert(bpms[0].beat >= 0);
    }
    lemma_seg_time_bounds(beat, bpms, 0, DEFAULT_BPM as int);
    lemma_stops_sum_bounds(beat, stops);
    assert(stops.len() * (MAX_STOP as int) <= (MAX_SCHED as int) * (MAX_STOP as int)) by {
        vstd::arithmetic::mul::lemma_mul_inequality(
            stops.len() as int,
            MAX_SCHED as int,
            MAX_STOP as int,
        );
    }
    assert(beat * 6000 <= (MAX_BEAT as int) * 6000);
}

/// Converts a beat position to absolute song time.
///
/// Walks the tempo breakpoints in ascending beat order from an implicit
/// 120 BPM segment at beat 0, then adds every pause at or before the
/// target beat. Pure: equal arguments always give the equal result.
#[verifier::loop_isolation(false)]
pub fn beat_to_time(beat: i64, bpms: &Schedule, offset: i64, stops: &Schedule) -> (t: i64)
    requires
        sched_wf(bpms.seq(), MIN_BPM as int, PARSE_MAX as int),
        sched_wf(stops.seq(), 0, MAX_STOP as int),
        0 <= beat <= MAX_BEAT,
        0 <= offset <= MAX_OFFSET,
    ensures
        t == beat_time(beat as int, bpms.seq(), offset as int, stops.seq()),
        0 <= t <= MAX_TIME,
{
    proof {
        lemma_beat_time_bounds(beat as int, bpms.seq(), offset as int, stops.seq());
        assert(bpms.seq().skip(0) =~= bpms.seq());
        assert(stops.seq().skip(0) =~= stops.seq());
    }
    let n = bpms.entries.len();
    let mut last_time: i64 = offset;
    let mut last_beat: i64 = 0;
    let mut last_bpm: i64 = DEFAULT_BPM;
    let mut i: usize = 0;
    while i < n && bpms.entries[i].beat <= beat
        invariant
            0 <= i <= n,
            0 <= last_beat <= beat,
            MIN_BPM <= last_bpm,
            i < n ==> last_beat <= bpms.seq()[i as int].beat,
            offset <= last_time,
            last_time <= offset + last_beat * 6000,
            last_time + seg_time(beat as int, bpms.seq().skip(i as int), last_beat as int,
                last_bpm as int) == offset + seg_time(beat as int, bpms.seq(), 0,
                DEFAULT_BPM as int),
        decreases n - i,
    {
        let e = bpms.entries[i];
        let d = e.beat - last_beat;
        proof {
            lemma_div_time_bound(d as int, last_bpm as int);
            assert(bpms.seq().skip(i as int).drop_first() =~= bpms.seq().skip(i + 1));
            assert(bpms.seq().skip(i as int)[0] == bpms.seq()[i as int]);
            lemma_seg_time_bounds(
                beat as int,
                bpms.seq().skip(i + 1),
                e.beat as int,
                e.value as int,
            );
            assert(forall|j: int|
                0 <= j < bpms.seq().skip(i + 1).len() ==> #[trigger] bpms.seq().skip(i + 1)[j]
                    == bpms.seq()[j + i + 1]);
        }
        let add = d * US_PER_MIN / last_bpm;
        last_time = last_time + add;
        last_beat = e.beat;
        last_bpm = e.value;
        i += 1;
    }
    proof {
        if i < n {
            assert(bpms.seq().skip(i as int)[0] == bpms.seq()[i as int]);
        }
        assert(seg_time(beat as int, bpms.seq().skip(i as int), last_beat as int, last_bpm as int)
            == (beat - last_beat) * (US_PER_MIN as int) / (last_bpm as int));
        lemma_div_time_bound(beat - last_beat, last_bpm as int);
    }
    let rem = (beat - last_beat) * US_PER_MIN / last_bpm;
    last_time = last_time + rem;
    // every pause at or before the target beat adds flat time
    let m = stops.entries.len();
    let mut ssum: i64 = 0;
    let mut j: usize = 0;
    while j < m
        invariant
            0 <= j <= m,
            0 <= ssum,
            ssum <= j * (MAX_STOP as int),
            ssum + stops_sum(beat as int, stops.seq().skip(j as int)) == stops_sum(
                beat as int,
                stops.seq(),
            ),
        decreases m - j,
    {
        proof {
            assert(stops.seq().skip(j as int).drop_first() =~= stops.seq().skip(j + 1));
            assert(stops.seq().skip(j as int)[0] == stops.seq()[j as int]);
            lemma_stops_sum_bounds(beat as int, stops.seq().skip(j + 1));
            assert(forall|l: int|
                0 <= l < stops.seq().skip(j + 1).len() ==> #[trigger] stops.seq().skip(j + 1)[l]
                    == stops.seq()[l + j + 1]);
            assert((j + 1) * (MAX_STOP as int) == j * (MAX_STOP as int) + (MAX_STOP as int));
        }
        let e = stops.entries[j];
        if e.beat <= beat {
            ssum = ssum + e.value;
        }
        j += 1;
    }
    proof {
        assert(stops.seq().skip(m as int) =~= Seq::<SchedEntry>::empty());
        assert(j * (MAX_STOP as int) <= (MAX_SCHED as int) * (MAX_STOP as int)) by {
            vstd::arithmetic::mul::lemma_mul_inequality(
                j as int,
                MAX_SCHED as int,
                MAX_STOP as int,
            );
        }
    }
    last_time + ssum
}

pub proof fn lemma_seg_time_monotone(
    b1: int,
    b2: int,
    entries: Seq<SchedEntry>,
    last_beat: int,
    last_bpm: int,
)
    requires
        sorted_by_beat(entries),
        values_in(entries, MIN_BPM as int, PARSE_MAX as int),
        MIN_BPM <= last_bpm,
        0 <= last_beat <= b1 <= b2,
        entries.len() > 0 ==> last_beat <= entries[0].beat,
    ensures
        seg_time(b1, entries, last_beat, last_bpm) <= seg_time(b2, entries, last_beat, last_bpm),
    decreases entries.len(),
{
    let c = US_PER_MIN as int;
    if entries.len() == 0 || b2 < entries[0].beat {
        lemma_div_is_ordered((b1 - last_beat) * c, (b2 - last_beat) * c, last_bpm);
    } else if entries[0].beat <= b1 {
        let e = entries[0];
        let rest = entries.drop_first();
        assert(forall|j: int| 0 <= j < rest.len() ==> rest[j] == entries[j + 1]);
        lemma_seg_time_monotone(b1, b2, rest, e.beat as int, e.value as int);
    } else {
        let e = entries[0];
        let rest = entries.drop_first();
        assert(forall|j: int| 0 <= j < rest.len() ==> rest[j] == entries[j + 1]);
        lemma_div_is_ordered((b1 - last_beat) * c, (e.beat - last_beat) * c, last_bpm);
        lemma_seg_time_bounds(b2, rest, e.beat as int, e.value as int);
    }
}

pub proof fn lemma_stops_sum_monotone(b1: int, b2: int, entries: Seq<SchedEntry>)
    requires
        values_in(entries, 0, MAX_STOP as int),
        b1 <= b2,
    ensures
        stops_sum(b1, entries) <= stops_sum(b2, entries),
    decreases entries.len(),
{
    if entries.len() > 0 {
        let rest = entries.drop_first();
        assert(forall|j: int| 0 <= j < rest.len() ==> rest[j] == entries[j + 1]);
        lemma_stops_sum_monotone(b1, b2, rest);
    }
}

/// Law: under a tempo schedule whose breakpoints ascend and pauses that
/// are non-negative, the timing model never travels backward: a later
/// beat maps to a time at least as late.
pub proof fn lemma_beat_time_monotone(
    b1: int,
    b2: int,
    bpms: Seq<SchedEntry>,
    offset: int,
    stops: Seq<SchedEntry>,
)
    requires
        sorted_by_beat(bpms),
        values_in(bpms, MIN_BPM as int, PARSE_MAX as int),
        bpms.len() > 0 ==> bpms[0].beat >= 0,
        values_in(stops, 0, MAX_STOP as int),
        0 <= b1 <= b2,
    ensures
        beat_time(b1, bpms, offset, stops) <= beat_time(b2, bpms, offset, stops),
{
    lemma_seg_time_monotone(b1, b2, bpms, 0, DEFAULT_BPM as int);
    lemma_stops_sum_monotone(b1, b2, stops);
}

pub proof fn lemma_seg_time_zero(entries: Seq<SchedEntry>, last_bpm: int)
    requires
        sorted_by_beat(entries),
        values_in(entries, MIN_BPM as int, PARSE_MAX as int),
        MIN_BPM <= last_bpm,
        entries.len() > 0 ==> entries[0].beat >= 0,
    ensures
        seg_time(0, entries, 0, last_bpm) == 0,
    decreases entries.len(),
{
    if entries.len() == 0 || 0 < entries[0].beat {
        lemma_div_of0(last_bpm);
    } else {
        let e = entries[0];
        let rest = entries.drop_first();
        assert(forall|j: int| 0 <= j < rest.len() ==> rest[j] == entries[j + 1]);
        assert(e.beat == 0);
        lemma_div_of0(last_bpm);
        if rest.len() > 0 {
            assert(rest[0] == entries[1]);
            assert(rest[0].beat > 0);
        }
        lemma_seg_time_zero(rest, e.value as int);
    }
}

/// Law: at beat 0, with no pauses, the time is exactly the offset, for
/// any tempo schedule whose earliest breakpoint is at beat 0 or later.
pub proof fn lemma_beat_time_zero(bpms: Seq<SchedEntry>, offset: int)
    requires
        sorted_by_beat(bpms),
        values_in(bpms, MIN_BPM as int, PARSE_MAX as int),
        bpms.len() > 0 ==> bpms[0].beat >= 0,
    ensures
        beat_time(0, bpms, offset, Seq::<SchedEntry>::empty()) == offset,
{
    lemma_seg_time_zero(bpms, DEFAULT_BPM as int);
}

} // verus!
