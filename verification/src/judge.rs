//! The judgment engine: one call per frame consumes the elapsed time,
//! the lanes pressed this frame (edge-triggered) and the lanes held,
//! advances the live note list in order, and yields the score delta and
//! the new combo.
use vstd::prelude::*;
use crate::chart::Arrow;
use crate::session::{GameState, arrow_wf, arrows_wf};
use crate::{CAPTURE_DIST, FLAWLESS_DIST, GOOD_DIST, HOLD_END_SLACK, HOLD_SCORE, JUDGE_Y, KILL_Y,
    LANES, MAX_TIME, PERFECT_DIST, SCORE_FLAWLESS, SCORE_GOOD, SCORE_OK, SCORE_PERFECT, SPAWN_Y,
    TRACK_SPAN};

verus! {

/// The state one frame threads through the notes, in list order.
pub ghost struct JState {
    /// Notes that stay alive, in their original order.
    pub kept: Seq<Arrow>,
    /// Score gained so far this frame.
    pub delta: int,
    /// The running combo.
    pub combo: int,
    /// Lanes already consumed by a capture this frame.
    pub taken: Seq<bool>,
}

/// A note's vertical position at `elapsed`: linear from the spawn line
/// to the judgment line across the approach duration (integer floor).
pub open spec fn note_y(a: Arrow, elapsed: int) -> int {
    SPAWN_Y + (elapsed - a.spawn_time) * (TRACK_SPAN as int) / (a.hit_time - a.spawn_time)
}

/// Rendered distance from the judgment line.
pub open spec fn note_dist(a: Arrow, elapsed: int) -> int {
    let y = note_y(a, elapsed);
    if y >= JUDGE_Y {
        y - JUDGE_Y
    } else {
        JUDGE_Y - y
    }
}

/// The tiered award for a capture at rendered distance `d`.
pub open spec fn tier_score(d: int) -> int {
    if d < FLAWLESS_DIST {
        SCORE_FLAWLESS as int
    } else if d < PERFECT_DIST {
        SCORE_PERFECT as int
    } else if d < GOOD_DIST {
        SCORE_GOOD as int
    } else {
        SCORE_OK as int
    }
}

/// A hold note's drawn height: its duration's magnitude mapped through
/// the approach scale.
pub open spec fn hold_height(a: Arrow) -> int {
    let n = if a.end_time >= a.hit_time {
        a.end_time - a.hit_time
    } else {
        a.hit_time - a.end_time
    };
    n * (TRACK_SPAN as int) / (a.hit_time - a.spawn_time)
}

pub open spec fn lane_set(s: Seq<bool>, lane: int) -> bool {
    0 <= lane < s.len() && s[lane]
}

/// One note's judgment, mirroring the per-frame rules: an unspawned
/// note is untouched; a hold whose lane is held within its window earns
/// the hold award; otherwise a press edge within the capture window
/// consumes the note (one per lane per frame) for a tiered award and a
/// combo step; what is left is dropped once past the line, a missed tap
/// resetting the combo.
pub open spec fn judge_note(
    a: Arrow,
    elapsed: int,
    pressed: Seq<bool>,
    held: Seq<bool>,
    st: JState,
) -> JState {
    if elapsed < a.spawn_time {
        JState { kept: st.kept.push(a), delta: st.delta, combo: st.combo, taken: st.taken }
    } else {
        let lane = a.lane as int;
        let holdable = a.is_hold && lane_set(held, lane);
        let hold_hit = holdable && a.hit_time <= elapsed <= a.end_time;
        let delta2 = if hold_hit {
            st.delta + HOLD_SCORE
        } else {
            st.delta
        };
        let d = note_dist(a, elapsed);
        let capture = !holdable && lane_set(pressed, lane) && d < CAPTURE_DIST && !lane_set(
            st.taken,
            lane,
        );
        if capture {
            JState {
                kept: st.kept,
                delta: delta2 + tier_score(d),
                combo: st.combo + 1,
                taken: st.taken.update(lane, true),
            }
        } else if a.is_hold {
            let rect_top = note_y(a, elapsed) - hold_height(a);
            let keep = if hold_hit {
                rect_top < JUDGE_Y - HOLD_END_SLACK
            } else {
                rect_top < KILL_Y
            };
            if keep {
                JState { kept: st.kept.push(a), delta: delta2, combo: st.combo, taken: st.taken }
            } else {
                JState { kept: st.kept, delta: delta2, combo: st.combo, taken: st.taken }
            }
        } else {
            if note_y(a, elapsed) >= KILL_Y {
                JState { kept: st.kept, delta: delta2, combo: 0, taken: st.taken }
            } else {
                JState { kept: st.kept.push(a), delta: delta2, combo: st.combo, taken: st.taken }
            }
        }
    }
}

pub open spec fn judge_seq(
    notes: Seq<Arrow>,
    elapsed: int,
    pressed: Seq<bool>,
    held: Seq<bool>,
    st: JState,
) -> JState
    decreases notes.len(),
{
    if notes.len() == 0 {
        st
    } else {
        judge_seq(
            notes.drop_first(),
            elapsed,
            pressed,
            held,
            judge_note(notes[0], elapsed, pressed, held, st),
        )
    }
}

pub open spec fn init_jstate(combo: int) -> JState {
    JState {
        kept: Seq::empty(),
        delta: 0,
        combo,
        taken: seq![false, false, false, false],
    }
}

/// The whole frame: every live note judged in list order, no lane
/// capturing twice.
pub open spec fn frame_spec(
    notes: Seq<Arrow>,
    elapsed: int,
    pressed: Seq<bool>,
    held: Seq<bool>,
    combo: int,
) -> JState {
    judge_seq(notes, elapsed, pressed, held, init_jstate(combo))
}

/// Frame-state bounds: the delta grows by at most the best award per
/// note, the combo by at most one per note, and kept notes stay
/// well-formed and no more numerous.
pub proof fn lemma_judge_seq_bounds(
    notes: Seq<Arrow>,
    elapsed: int,
    pressed: Seq<bool>,
    held: Seq<bool>,
    st: JState,
)
    requires
        forall|i: int| 0 <= i < notes.len() ==> arrow_wf(#[trigger] notes[i]),
        forall|i: int| 0 <= i < st.kept.len() ==> arrow_wf(#[trigger] st.kept[i]),
        st.taken.len() == LANES,
        pressed.len() == LANES,
        st.delta >= 0,
        st.combo >= 0,
    ensures
        ({
            let r = judge_seq(notes, elapsed, pressed, held, st);
            &&& st.delta <= r.delta <= st.delta + notes.len() * 505
            &&& 0 <= r.combo <= st.combo + notes.len()
            &&& r.combo + r.kept.len() <= st.combo + st.kept.len() + notes.len()
            &&& st.kept.len() <= r.kept.len() <= st.kept.len() + notes.len()
            &&& forall|i: int| 0 <= i < r.kept.len() ==> arrow_wf(#[trigger] r.kept[i])
            &&& r.taken.len() == LANES
        }),
    decreases notes.len(),
{
    if notes.len() > 0 {
        let st2 = judge_note(notes[0], elapsed, pressed, held, st);
        assert(forall|i: int|
            0 <= i < st2.kept.len() ==> #[trigger] st2.kept[i] == st.kept[i] || st2.kept[i]
                == notes[0]);
        assert(forall|i: int|
            0 <= i < notes.drop_first().len() ==> notes.drop_first()[i] == notes[i + 1]);
        lemma_judge_seq_bounds(notes.drop_first(), elapsed, pressed, held, st2);
        assert(notes.len() * 505 == (notes.drop_first().len() as int) * 505 + 505);
        assert(st.kept.len() + notes.len() == st2.kept.len() + notes.drop_first().len() + (
        st.kept.len() + 1 - st2.kept.len()));
    }
}

/// Law: a press edge on a tap note rendered within the top-tier window
/// consumes it: the note leaves the list, the score gains the top
/// award, and the combo steps by exactly one.
pub proof fn lemma_tap_capture_top_tier(
    a: Arrow,
    elapsed: int,
    pressed: Seq<bool>,
    held: Seq<bool>,
    combo: int,
)
    requires
        !a.is_hold,
        a.lane < LANES,
        pressed.len() == LANES,
        pressed[a.lane as int],
        a.spawn_time <= elapsed,
        note_dist(a, elapsed) < FLAWLESS_DIST,
    ensures
        frame_spec(seq![a], elapsed, pressed, held, combo).kept == Seq::<Arrow>::empty(),
        frame_spec(seq![a], elapsed, pressed, held, combo).delta == SCORE_FLAWLESS,
        frame_spec(seq![a], elapsed, pressed, held, combo).combo == combo + 1,
{
    let st0 = init_jstate(combo);
    assert(st0.taken[a.lane as int] == false);
    assert(seq![a][0] == a);
    assert(seq![a].drop_first() =~= Seq::<Arrow>::empty());
    let st1 = judge_note(a, elapsed, pressed, held, st0);
    assert(st1.delta == SCORE_FLAWLESS);
    assert(judge_seq(Seq::<Arrow>::empty(), elapsed, pressed, held, st1) == st1);
    assert(frame_spec(seq![a], elapsed, pressed, held, combo) == st1);
}

/// Law: two notes in one lane both within the capture window: one press
/// edge consumes only the first; the lane is taken for the rest of the
/// frame, so the second stays and the combo steps once.
pub proof fn lemma_no_double_consume(
    a: Arrow,
    b: Arrow,
    elapsed: int,
    pressed: Seq<bool>,
    held: Seq<bool>,
    combo: int,
)
    requires
        !a.is_hold,
        !b.is_hold,
        a.lane == b.lane,
        a.lane < LANES,
        pressed.len() == LANES,
        pressed[a.lane as int],
        a.spawn_time <= elapsed,
        b.spawn_time <= elapsed,
        note_dist(a, elapsed) < CAPTURE_DIST,
        note_dist(b, elapsed) < CAPTURE_DIST,
    ensures
        frame_spec(seq![a, b], elapsed, pressed, held, combo).kept == seq![b],
        frame_spec(seq![a, b], elapsed, pressed, held, combo).delta == tier_score(
            note_dist(a, elapsed),
        ),
        frame_spec(seq![a, b], elapsed, pressed, held, combo).combo == combo + 1,
{
    let st0 = init_jstate(combo);
    let lane = a.lane as int;
    assert(st0.taken[lane] == false);
    assert(seq![a, b][0] == a);
    assert(seq![a, b].drop_first() =~= seq![b]);
    assert(seq![b][0] == b);
    assert(seq![b].drop_first() =~= Seq::<Arrow>::empty());
    let st1 = judge_note(a, elapsed, pressed, held, st0);
    assert(st1.taken == st0.taken.update(lane, true));
    assert(st1.taken[lane] == true);
    let st2 = judge_note(b, elapsed, pressed, held, st1);
    assert(note_y(b, elapsed) < KILL_Y);
    assert(st2.kept =~= seq![b]);
    assert(judge_seq(Seq::<Arrow>::empty(), elapsed, pressed, held, st2) == st2);
    assert(judge_seq(seq![b], elapsed, pressed, held, st1) == st2);
    assert(judge_seq(seq![a, b], elapsed, pressed, held, st0) == st2);
}

/// Law: a tap note whose rendered position has passed the kill line is
/// removed and the combo resets to zero; no press can still capture it
/// there, its distance being past the capture window.
pub proof fn lemma_missed_tap_resets_combo(
    a: Arrow,
    elapsed: int,
    pressed: Seq<bool>,
    held: Seq<bool>,
    combo: int,
)
    requires
        !a.is_hold,
        a.spawn_time <= elapsed,
        note_y(a, elapsed) >= KILL_Y,
    ensures
        frame_spec(seq![a], elapsed, pressed, held, combo).kept == Seq::<Arrow>::empty(),
        frame_spec(seq![a], elapsed, pressed, held, combo).delta == 0,
        frame_spec(seq![a], elapsed, pressed, held, combo).combo == 0,
{
    assert(note_dist(a, elapsed) >= CAPTURE_DIST);
    assert(seq![a][0] == a);
    assert(seq![a].drop_first() =~= Seq::<Arrow>::empty());
    let st1 = judge_note(a, elapsed, pressed, held, init_jstate(combo));
    assert(st1.combo == 0);
    assert(judge_seq(Seq::<Arrow>::empty(), elapsed, pressed, held, st1) == st1);
    assert(frame_spec(seq![a], elapsed, pressed, held, combo) == st1);
}

/// Judges the notes from `i` on, threading the frame state through.
pub fn judge_rec(
    arrows: &Vec<Arrow>,
    i: usize,
    elapsed: i64,
    pressed: [bool; 4],
    held: [bool; 4],
    kept: Vec<Arrow>,
    delta: u64,
    combo: u64,
    taken: Vec<bool>,
) -> (r: (Vec<Arrow>, u64, u64, Vec<bool>))
    requires
        arrows_wf(arrows@),
        i <= arrows@.len(),
        0 <= elapsed <= MAX_TIME,
        taken@.len() == LANES,
        delta + (arrows@.len() - i) * 505 <= u64::MAX,
        combo + (arrows@.len() - i) <= u64::MAX,
    ensures
        ({
            let res = judge_seq(
                arrows@.skip(i as int),
                elapsed as int,
                pressed@,
                held@,
                JState { kept: kept@, delta: delta as int, combo: combo as int, taken: taken@ },
            );
            r.0@ == res.kept && r.1 == res.delta && r.2 == res.combo && r.3@ == res.taken
        }),
    decreases arrows@.len() - i,
{
    let n = arrows.len();
    if i >= n {
        proof {
            assert(arrows@.skip(i as int) =~= Seq::<Arrow>::empty());
        }
        return (kept, delta, combo, taken);
    }
    proof {
        assert(arrows@.skip(i as int)[0] == arrows@[i as int]);
        assert(arrows@.skip(i as int).drop_first() =~= arrows@.skip(i as int + 1));
        assert(arrow_wf(arrows@[i as int]));
        assert((arrows@.len() - i) * 505 == (arrows@.len() - (i + 1)) * 505 + 505);
    }
    let a = arrows[i];
    let mut kept = kept;
    let mut delta = delta;
    let mut combo = combo;
    let mut taken = taken;
    if elapsed < a.spawn_time {
        kept.push(a);
        return judge_rec(arrows, i + 1, elapsed, pressed, held, kept, delta, combo, taken);
    }
    let den = a.hit_time - a.spawn_time;
    let y = SPAWN_Y + (elapsed - a.spawn_time) * TRACK_SPAN / den;
    let d = if y >= JUDGE_Y {
        y - JUDGE_Y
    } else {
        JUDGE_Y - y
    };
    let lane = a.lane;
    let holdable = a.is_hold && lane < LANES && held[lane];
    let hold_hit = holdable && a.hit_time <= elapsed && elapsed <= a.end_time;
    if hold_hit {
        delta = delta + HOLD_SCORE;
    }
    let capture = !holdable && lane < LANES && pressed[lane] && d < CAPTURE_DIST && !taken[lane];
    if capture {
        let award: u64 = if d < FLAWLESS_DIST {
            SCORE_FLAWLESS
        } else if d < PERFECT_DIST {
            SCORE_PERFECT
        } else if d < GOOD_DIST {
            SCORE_GOOD
        } else {
            SCORE_OK
        };
        delta = delta + award;
        combo = combo + 1;
        let ghost gtaken = taken@;
        taken.remove(lane);
        taken.insert(lane, true);
        proof {
            assert(taken@ =~= gtaken.update(lane as int, true));
        }
    } else if a.is_hold {
        let hn = if a.end_time >= a.hit_time {
            a.end_time - a.hit_time
        } else {
            a.hit_time - a.end_time
        };
        let hh = hn * TRACK_SPAN / den;
        let rect_top = y - hh;
        let keep = if hold_hit {
            rect_top < JUDGE_Y - HOLD_END_SLACK
        } else {
            rect_top < KILL_Y
        };
        if keep {
            kept.push(a);
        }
    } else {
        if y >= KILL_Y {
            combo = 0;
        } else {
            kept.push(a);
        }
    }
    judge_rec(arrows, i + 1, elapsed, pressed, held, kept, delta, combo, taken)
}

impl GameState {
    /// One frame of judgment: consumes the elapsed song time, the lanes
    /// pressed this frame and the lanes held, updates the live note
    /// list, and returns the score gained and the new combo.
    pub fn judge_frame(&mut self, elapsed: i64, pressed: [bool; 4], held: [bool; 4], combo: u64) -> (r: (
        u64,
        u64,
    ))
        requires
            old(self).wf(),
            0 <= elapsed <= MAX_TIME,
            combo <= 0x1000_0000_0000_0000,
        ensures
            final(self).arrows@ == frame_spec(
                old(self).arrows@,
                elapsed as int,
                pressed@,
                held@,
                combo as int,
            ).kept,
            r.0 == frame_spec(old(self).arrows@, elapsed as int, pressed@, held@, combo as int).delta,
            r.1 == frame_spec(old(self).arrows@, elapsed as int, pressed@, held@, combo as int).combo,
            r.1 + final(self).arrows@.len() <= combo + old(self).arrows@.len(),
            final(self).wf(),
            final(self).charts() == old(self).charts(),
            final(self).start_delay == old(self).start_delay,
    {
        let mut taken: Vec<bool> = Vec::new();
        taken.push(false);
        taken.push(false);
        taken.push(false);
        taken.push(false);
        proof {
            assert(taken@ =~= seq![false, false, false, false]);
            assert(self.arrows@.skip(0) =~= self.arrows@);
            lemma_judge_seq_bounds(
                self.arrows@,
                elapsed as int,
                pressed@,
                held@,
                JState { kept: Seq::empty(), delta: 0, combo: combo as int, taken: taken@ },
            );
        }
        let p = judge_rec(&self.arrows, 0, elapsed, pressed, held, Vec::new(), 0, combo, taken);
        self.arrows = p.0;
        proof {
            assert(self.charts() =~= old(self).charts());
        }
        (p.1, p.2)
    }
}

} // verus!
