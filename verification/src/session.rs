//! Session state: compiling a chart into a `GameState`, and starting a
//! difficulty, which clones its note list into play and schedules the
//! start instant a delay from now (the caller holds the clock).
use vstd::prelude::*;
use vstd::string::*;
use crate::chart::{Arrow, bpms_spec, chart_scan, parse_sched, scan_chart, stops_spec};
use crate::notes::{emit_diff, raws_wf, run_diff};
use crate::text::{parse_fixed, parse_fixed_spec, parse_tag_value, tag_value,
    lemma_digits_val_nonneg, lemma_frac_val_bounds, fixed_shape_ok, first_at,
    lemma_first_at_bounds};
use crate::{MAX_NOTES, MAX_OFFSET, MAX_SPEED, MAX_STOP, MAX_TIME, MIN_BPM, PARSE_MAX, TIME_SCALE};

verus! {

/// The value of a scalar tag, the empty string when absent.
pub open spec fn tag_str(s: Seq<char>, tag: Seq<char>) -> Seq<char> {
    match tag_value(s, tag) {
        Option::Some(v) => v,
        Option::None => Seq::empty(),
    }
}

/// The numeric value of a scalar tag in micro-units, 0 when absent or
/// unparsable.
pub open spec fn tag_num(s: Seq<char>, tag: Seq<char>) -> int {
    match tag_value(s, tag) {
        Option::Some(v) => match parse_fixed_spec(v) {
            Option::Some(x) => x,
            Option::None => 0,
        },
        Option::None => 0,
    }
}

/// The chart's start offset: the `#OFFSET` tag's magnitude (the sign in
/// the source tag is discarded), 0 when absent or out of range.
pub open spec fn offset_spec(s: Seq<char>) -> int {
    let v = tag_num(s, "#OFFSET:"@);
    let a = if v < 0 {
        -v
    } else {
        v
    };
    if a <= MAX_OFFSET {
        a
    } else {
        0
    }
}

/// Whatever the parser returns stays within its cap.
pub proof fn lemma_parse_fixed_range(s: Seq<char>)
    ensures
        match parse_fixed_spec(s) {
            Option::Some(v) => -(PARSE_MAX as int) <= v <= PARSE_MAX as int,
            Option::None => true,
        },
{
    let signed = s.len() > 0 && (s[0] == '-' || s[0] == '+');
    let body = if signed {
        s.drop_first()
    } else {
        s
    };
    if fixed_shape_ok(body) {
        let d = first_at(body, '.');
        lemma_first_at_bounds(body, '.');
        lemma_digits_val_nonneg(body.take(d));
        if d < body.len() {
            lemma_frac_val_bounds(body.skip(d + 1), 100_000);
        }
    }
}

/// Every note stamped: spawn time is hit time minus the approach
/// duration.
pub open spec fn stamp(arrows: Seq<Arrow>, speed: i64) -> Seq<Arrow> {
    arrows.map_values(
        |a: Arrow|
            Arrow {
                lane: a.lane,
                hit_time: a.hit_time,
                spawn_time: (a.hit_time - speed) as i64,
                is_hold: a.is_hold,
                end_time: a.end_time,
            },
    )
}

/// What compiling a chart yields for each difficulty, in order.
pub open spec fn charts_spec(s: Seq<char>, speed: i64) -> Seq<Seq<Arrow>> {
    let sc = chart_scan(s);
    Seq::new(
        sc.sections.len(),
        |i: int| stamp(emit_diff(sc.sections[i], bpms_spec(s), offset_spec(s), stops_spec(s)), speed),
    )
}

/// A note ready for play: times in range, and it spawns before it hits,
/// by at most the largest approach duration.
pub open spec fn arrow_wf(a: Arrow) -> bool {
    &&& 0 <= a.hit_time <= MAX_TIME
    &&& 0 <= a.end_time <= MAX_TIME
    &&& a.hit_time - MAX_SPEED <= a.spawn_time <= a.hit_time - 1
}

pub open spec fn arrows_wf(s: Seq<Arrow>) -> bool {
    s.len() <= MAX_NOTES && forall|i: int| 0 <= i < s.len() ==> arrow_wf(#[trigger] s[i])
}

/// The start delay: one second, extended by the lead the first note
/// needs when it would spawn before the song begins.
pub open spec fn spec_start_delay(arrows: Seq<Arrow>) -> int {
    (TIME_SCALE as int) + if arrows.len() > 0 && arrows[0].spawn_time < 0 {
        -(arrows[0].spawn_time as int)
    } else {
        0
    }
}

/// Reads a tag's numeric value, 0 when absent or unparsable.
pub fn tag_num_value(contents: &str, tag: &str) -> (r: i64)
    ensures
        r == tag_num(contents@, tag@),
        -PARSE_MAX <= r <= PARSE_MAX,
{
    proof {
        match tag_value(contents@, tag@) {
            Option::Some(v) => lemma_parse_fixed_range(v),
            Option::None => {},
        }
    }
    match parse_tag_value(contents, tag) {
        None => 0,
        Some(v) => match parse_fixed(v.as_str()) {
            None => 0,
            Some(x) => x,
        },
    }
}

/// Reads the chart's start offset as a non-negative magnitude.
pub fn offset_value(contents: &str) -> (r: i64)
    ensures
        r == offset_spec(contents@),
        0 <= r <= MAX_OFFSET,
{
    let v = tag_num_value(contents, "#OFFSET:");
    let a = if v < 0 {
        -v
    } else {
        v
    };
    if a <= MAX_OFFSET {
        a
    } else {
        0
    }
}

/// Stamps every note's spawn time: hit time minus approach duration.
#[verifier::loop_isolation(false)]
pub fn stamp_arrows(v: Vec<Arrow>, speed: i64) -> (r: Vec<Arrow>)
    requires
        1 <= speed <= MAX_SPEED,
        raws_wf(v@),
    ensures
        r@ == stamp(v@, speed),
        arrows_wf(r@),
{
    let n = v.len();
    let mut out: Vec<Arrow> = Vec::new();
    let mut i: usize = 0;
    while i < n
        invariant
            0 <= i <= n,
            n == v@.len(),
            out@.len() == i,
            forall|j: int|
                0 <= j < i ==> #[trigger] out@[j] == (Arrow {
                    lane: v@[j].lane,
                    hit_time: v@[j].hit_time,
                    spawn_time: (v@[j].hit_time - speed) as i64,
                    is_hold: v@[j].is_hold,
                    end_time: v@[j].end_time,
                }),
        decreases n - i,
    {
        let a = v[i];
        out.push(
            Arrow {
                lane: a.lane,
                hit_time: a.hit_time,
                spawn_time: a.hit_time - speed,
                is_hold: a.is_hold,
                end_time: a.end_time,
            },
        );
        i += 1;
    }
    proof {
        assert(out@ =~= stamp(v@, speed));
        assert forall|j: int| 0 <= j < out@.len() implies arrow_wf(#[trigger] out@[j]) by {
            assert(raws_wf(v@) ==> 0 <= v@[j].hit_time <= MAX_TIME);
        }
    }
    out
}

/// The session: compiled difficulties and metadata, the live note list,
/// and the scheduled start delay.
pub struct GameState {
    /// Difficulty labels, as scanned from the chart.
    pub difficulties: Vec<String>,
    /// Microseconds between "now" at `start` and the song's beginning.
    pub start_delay: i64,
    /// The live note list of the difficulty being played.
    pub arrows: Vec<Arrow>,
    /// Audio file name from `#MUSIC`.
    pub song: String,
    /// Artist from `#ARTIST`.
    pub artist: String,
    /// Title from `#TITLE`.
    pub title: String,
    /// Background image name from `#BACKGROUND`.
    pub bg: String,
    /// Preview start, microseconds, from `#SAMPLESTART`.
    pub sample_start: i64,
    /// Preview length, microseconds, from `#SAMPLELENGTH`.
    pub sample_len: i64,
    /// The compiled note list of every difficulty, in scan order.
    pub all_arrows: Vec<Vec<Arrow>>,
}

impl GameState {
    /// The compiled note list of each difficulty.
    pub open spec fn charts(self) -> Seq<Seq<Arrow>> {
        Seq::new(self.all_arrows@.len(), |i: int| self.all_arrows@[i]@)
    }

    /// Every held note list is well formed and the delay is in range.
    pub open spec fn wf(self) -> bool {
        &&& arrows_wf(self.arrows@)
        &&& forall|i: int| 0 <= i < self.charts().len() ==> arrows_wf(#[trigger] self.charts()[i])
        &&& 0 <= self.start_delay <= TIME_SCALE + MAX_SPEED
    }

    /// Compiles chart text into a session: scalar tags, the tempo and
    /// pause schedules, and per-difficulty note lists stamped with
    /// absolute times; `speed` is the approach duration in microseconds.
    #[verifier::loop_isolation(false)]
    pub fn new(contents: &str, speed: i64) -> (r: GameState)
        requires
            1 <= speed <= MAX_SPEED,
        ensures
            r.title@ == tag_str(contents@, "#TITLE:"@),
            r.artist@ == tag_str(contents@, "#ARTIST:"@),
            r.song@ == tag_str(contents@, "#MUSIC:"@),
            r.bg@ == tag_str(contents@, "#BACKGROUND:"@),
            r.sample_start == tag_num(contents@, "#SAMPLESTART:"@),
            r.sample_len == tag_num(contents@, "#SAMPLELENGTH:"@),
            r.difficulties.deep_view() == chart_scan(contents@).labels,
            r.charts() == charts_spec(contents@, speed),
            r.arrows@ == Seq::<Arrow>::empty(),
            r.start_delay == 0,
            r.wf(),
    {
        let title = match parse_tag_value(contents, "#TITLE:") {
            Some(v) => v,
            None => String::new(),
        };
        let artist = match parse_tag_value(contents, "#ARTIST:") {
            Some(v) => v,
            None => String::new(),
        };
        let song = match parse_tag_value(contents, "#MUSIC:") {
            Some(v) => v,
            None => String::new(),
        };
        let bg = match parse_tag_value(contents, "#BACKGROUND:") {
            Some(v) => v,
            None => String::new(),
        };
        let sample_start = tag_num_value(contents, "#SAMPLESTART:");
        let sample_len = tag_num_value(contents, "#SAMPLELENGTH:");
        let offset = offset_value(contents);
        let bpms = parse_sched(contents, "#BPMS", MIN_BPM, PARSE_MAX, false);
        let stops = parse_sched(contents, "#STOPS", 0, MAX_STOP, true);
        let sc = scan_chart(contents);
        let sections = sc.sections;
        let total = sections.len();
        let ghost gsec = chart_scan(contents@).sections;
        let mut all_arrows: Vec<Vec<Arrow>> = Vec::new();
        let mut k: usize = 0;
        while k < total
            invariant
                0 <= k <= total,
                total == gsec.len(),
                all_arrows@.len() == k,
                forall|j: int|
                    0 <= j < k ==> #[trigger] all_arrows@[j]@ == stamp(
                        emit_diff(
                            gsec[j],
                            bpms_spec(contents@),
                            offset_spec(contents@),
                            stops_spec(contents@),
                        ),
                        speed,
                    ) && arrows_wf(all_arrows@[j]@),
            decreases total - k,
        {
            proof {
                assert(sections.deep_view()[k as int] == sections@[k as int].deep_view());
            }
            let d = run_diff(&sections[k], &bpms, offset, &stops);
            let d2 = stamp_arrows(d, speed);
            all_arrows.push(d2);
            k += 1;
        }
        let r = GameState {
            difficulties: sc.labels,
            start_delay: 0,
            arrows: Vec::new(),
            song,
            artist,
            title,
            bg,
            sample_start,
            sample_len,
            all_arrows,
        };
        proof {
            assert(r.charts() =~= charts_spec(contents@, speed));
            assert(r.arrows@ =~= Seq::<Arrow>::empty());
        }
        r
    }

    /// One step of the difficulty menu: moving up stops at the first
    /// entry, moving down at the last; an empty list leaves the
    /// selection alone.
    pub fn menu_step(selected: u32, count: usize, up: bool) -> (r: u32)
        ensures
            up ==> r == if selected > 0 {
                (selected - 1) as u32
            } else {
                0u32
            },
            !up ==> r == if count > 0 && (selected as int) < count - 1 && selected < u32::MAX {
                (selected + 1) as u32
            } else {
                selected
            },
    {
        if up {
            if selected > 0 {
                selected - 1
            } else {
                0
            }
        } else {
            if count > 0 && (selected as usize) < count - 1 && selected < u32::MAX {
                selected + 1
            } else {
                selected
            }
        }
    }

    /// Selects a difficulty: its note list (empty when the index is out
    /// of range) becomes the live list, and the start delay becomes one
    /// second, extended so a note spawning before the countdown ends is
    /// still visible for its whole approach.
    #[verifier::loop_isolation(false)]
    pub fn start(&mut self, difficulty: u32)
        requires
            old(self).wf(),
        ensures
            final(self).arrows@ == if (difficulty as int) < old(self).charts().len() {
                old(self).charts()[difficulty as int]
            } else {
                Seq::<Arrow>::empty()
            },
            final(self).start_delay == spec_start_delay(final(self).arrows@),
            final(self).charts() == old(self).charts(),
            final(self).difficulties == old(self).difficulties,
            final(self).title == old(self).title,
            final(self).artist == old(self).artist,
            final(self).song == old(self).song,
            final(self).bg == old(self).bg,
            final(self).sample_start == old(self).sample_start,
            final(self).sample_len == old(self).sample_len,
            final(self).wf(),
    {
        let d = difficulty as usize;
        let mut arrows: Vec<Arrow> = Vec::new();
        if d < self.all_arrows.len() {
            let n = self.all_arrows[d].len();
            let mut i: usize = 0;
            while i < n
                invariant
                    0 <= i <= n,
                    d < self.all_arrows@.len(),
                    n == self.all_arrows@[d as int]@.len(),
                    arrows@ =~= self.all_arrows@[d as int]@.take(i as int),
                decreases n - i,
            {
                let a = self.all_arrows[d][i];
                arrows.push(a);
                proof {
                    assert(arrows@ =~= self.all_arrows@[d as int]@.take(i + 1));
                }
                i += 1;
            }
            proof {
                assert(arrows@ =~= self.all_arrows@[d as int]@);
                assert(self.charts()[d as int] == self.all_arrows@[d as int]@);
            }
        }
        let mut delay: i64 = TIME_SCALE;
        if arrows.len() > 0 {
            let first_spawn = arrows[0].spawn_time;
            if first_spawn < 0 {
                proof {
                    assert(arrow_wf(arrows@[0]));
                }
                delay = TIME_SCALE - first_spawn;
            }
        }
        self.arrows = arrows;
        self.start_delay = delay;
    }
}

} // verus!
