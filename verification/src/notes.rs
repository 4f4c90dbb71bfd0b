//! The chart compiler's back half: walking the scanned measures and
//! rows, stamping every `1`/`2`/`3` cell with absolute times through
//! the timing model.
//!
//! A measure spans four beats divided evenly by its row count; each
//! lane keeps an open-hold register across the whole difficulty (its
//! stale initial value 0 is the source format's documented behaviour
//! for a `3` with no preceding `2`).
use vstd::prelude::*;
use vstd::string::*;
use vstd::arithmetic::div_mod::{lemma_fundamental_div_mod, lemma_div_pos_is_pos};
use vstd::arithmetic::mul::{lemma_mul_inequality, lemma_mul_nonnegative};
use crate::chart::Arrow;
use crate::schedule::{SchedEntry, Schedule, sched_wf};
use crate::timing::{beat_time, beat_to_time, lemma_beat_time_bounds};
use crate::{LANES, MAX_BEAT, MAX_MEASURES, MAX_NOTES, MAX_OFFSET, MAX_STOP, MAX_TIME,
    MEASURE_UBEATS, MIN_BPM, PARSE_MAX};

verus! {

/// A note as first emitted: times set, spawn not yet stamped.
pub open spec fn raw_arrow_wf(a: Arrow) -> bool {
    0 <= a.hit_time <= MAX_TIME && 0 <= a.end_time <= MAX_TIME && a.spawn_time == 0
}

pub open spec fn raws_wf(s: Seq<Arrow>) -> bool {
    s.len() <= MAX_NOTES && forall|i: int| 0 <= i < s.len() ==> raw_arrow_wf(#[trigger] s[i])
}

/// The per-lane open-hold registers: one start time per lane.
pub open spec fn longs_wf(l: Seq<i64>) -> bool {
    l.len() == LANES && forall|i: int| 0 <= i < l.len() ==> 0 <= #[trigger] l[i] <= MAX_TIME
}

/// The cells of one row, from `lane` on, at row time `t`: `1` emits a
/// tap, `2` opens the lane's hold register, `3` closes it into a hold
/// note; anything else (and a hold mark past the last lane) is ignored.
pub open spec fn emit_cells(row: Seq<char>, t: i64, lane: int, longs: Seq<i64>, acc: Seq<Arrow>) -> (
    Seq<Arrow>,
    Seq<i64>,
)
    decreases row.len(),
{
    if row.len() == 0 {
        (acc, longs)
    } else {
        let c = row[0];
        let acc2 = if c == '1' && acc.len() < MAX_NOTES {
            acc.push(
                Arrow {
                    lane: lane as usize,
                    hit_time: t,
                    spawn_time: 0,
                    is_hold: false,
                    end_time: 0,
                },
            )
        } else if c == '3' && 0 <= lane < LANES && acc.len() < MAX_NOTES {
            acc.push(
                Arrow {
                    lane: lane as usize,
                    hit_time: longs[lane],
                    spawn_time: 0,
                    is_hold: true,
                    end_time: t,
                },
            )
        } else {
            acc
        };
        let longs2 = if c == '2' && 0 <= lane < LANES {
            longs.update(lane, t)
        } else {
            longs
        };
        emit_cells(row.drop_first(), t, lane + 1, longs2, acc2)
    }
}

/// The beat of a row: its measure's start plus its share of the four
/// beats the measure spans, floor-divided among the measure's rows.
pub open spec fn row_beat(m_idx: int, r_idx: int, nrows: int) -> int {
    m_idx * (MEASURE_UBEATS as int) + r_idx * ((MEASURE_UBEATS as int) / nrows)
}

/// The rows of one measure, from row `r_idx` on.
pub open spec fn emit_rows(
    rows: Seq<Seq<char>>,
    nrows: int,
    m_idx: int,
    r_idx: int,
    longs: Seq<i64>,
    acc: Seq<Arrow>,
    bpms: Seq<SchedEntry>,
    offset: int,
    stops: Seq<SchedEntry>,
) -> (Seq<Arrow>, Seq<i64>)
    decreases rows.len(),
{
    if rows.len() == 0 {
        (acc, longs)
    } else {
        let t = beat_time(row_beat(m_idx, r_idx, nrows), bpms, offset, stops) as i64;
        let p = emit_cells(rows[0], t, 0, longs, acc);
        emit_rows(rows.drop_first(), nrows, m_idx, r_idx + 1, p.1, p.0, bpms, offset, stops)
    }
}

/// The measures of one difficulty, from measure `m_idx` on; measures
/// past the capacity are dropped so every beat stays in range.
pub open spec fn emit_measures(
    ms: Seq<Seq<Seq<char>>>,
    m_idx: int,
    longs: Seq<i64>,
    acc: Seq<Arrow>,
    bpms: Seq<SchedEntry>,
    offset: int,
    stops: Seq<SchedEntry>,
) -> (Seq<Arrow>, Seq<i64>)
    decreases ms.len(),
{
    if ms.len() == 0 || m_idx >= MAX_MEASURES {
        (acc, longs)
    } else {
        let p = emit_rows(ms[0], ms[0].len() as int, m_idx, 0, longs, acc, bpms, offset, stops);
        emit_measures(ms.drop_first(), m_idx + 1, p.1, p.0, bpms, offset, stops)
    }
}

/// All notes of one difficulty, in emission order, with the open-hold
/// registers starting stale at 0.
pub open spec fn emit_diff(
    ms: Seq<Seq<Seq<char>>>,
    bpms: Seq<SchedEntry>,
    offset: int,
    stops: Seq<SchedEntry>,
) -> Seq<Arrow> {
    emit_measures(ms, 0, seq![0i64, 0i64, 0i64, 0i64], Seq::empty(), bpms, offset, stops).0
}

pub proof fn lemma_emit_cells_wf(row: Seq<char>, t: i64, lane: int, longs: Seq<i64>, acc: Seq<Arrow>)
    requires
        0 <= t <= MAX_TIME,
        longs_wf(longs),
        raws_wf(acc),
    ensures
        raws_wf(emit_cells(row, t, lane, longs, acc).0),
        longs_wf(emit_cells(row, t, lane, longs, acc).1),
        emit_cells(row, t, lane, longs, acc).0.len() >= acc.len(),
    decreases row.len(),
{
    if row.len() > 0 {
        let c = row[0];
        let acc2 = if c == '1' && acc.len() < MAX_NOTES {
            acc.push(
                Arrow {
                    lane: lane as usize,
                    hit_time: t,
                    spawn_time: 0,
                    is_hold: false,
                    end_time: 0,
                },
            )
        } else if c == '3' && 0 <= lane < LANES && acc.len() < MAX_NOTES {
            acc.push(
                Arrow {
                    lane: lane as usize,
                    hit_time: longs[lane],
                    spawn_time: 0,
                    is_hold: true,
                    end_time: t,
                },
            )
        } else {
            acc
        };
        let longs2 = if c == '2' && 0 <= lane < LANES {
            longs.update(lane, t)
        } else {
            longs
        };
        lemma_emit_cells_wf(row.drop_first(), t, lane + 1, longs2, acc2);
    }
}

/// The beat of any row within the measure cap stays in beat range.
pub proof fn lemma_row_beat_range(m_idx: int, r_idx: int, nrows: int)
    requires
        0 <= m_idx < MAX_MEASURES,
        0 <= r_idx < nrows,
    ensures
        0 <= row_beat(m_idx, r_idx, nrows) <= MAX_BEAT,
{
    let mu = MEASURE_UBEATS as int;
    let q = mu / nrows;
    lemma_fundamental_div_mod(mu, nrows);
    lemma_div_pos_is_pos(mu, nrows);
    lemma_mul_nonnegative(r_idx, q);
    lemma_mul_inequality(r_idx, nrows - 1, q);
    assert((nrows - 1) * q == nrows * q - q) by (nonlinear_arith);
    assert(nrows * q <= mu);
    lemma_mul_inequality(m_idx, MAX_MEASURES as int - 1, mu);
}

pub proof fn lemma_emit_rows_wf(
    rows: Seq<Seq<char>>,
    nrows: int,
    m_idx: int,
    r_idx: int,
    longs: Seq<i64>,
    acc: Seq<Arrow>,
    bpms: Seq<SchedEntry>,
    offset: int,
    stops: Seq<SchedEntry>,
)
    requires
        sched_wf(bpms, MIN_BPM as int, PARSE_MAX as int),
        sched_wf(stops, 0, MAX_STOP as int),
        0 <= offset <= MAX_OFFSET,
        0 <= m_idx < MAX_MEASURES,
        0 <= r_idx,
        r_idx + rows.len() <= nrows,
        longs_wf(longs),
        raws_wf(acc),
    ensures
        raws_wf(emit_rows(rows, nrows, m_idx, r_idx, longs, acc, bpms, offset, stops).0),
        longs_wf(emit_rows(rows, nrows, m_idx, r_idx, longs, acc, bpms, offset, stops).1),
    decreases rows.len(),
{
    if rows.len() > 0 {
        lemma_row_beat_range(m_idx, r_idx, nrows);
        let beat = row_beat(m_idx, r_idx, nrows);
        lemma_beat_time_bounds(beat, bpms, offset, stops);
        let t = beat_time(beat, bpms, offset, stops) as i64;
        lemma_emit_cells_wf(rows[0], t, 0, longs, acc);
        let p = emit_cells(rows[0], t, 0, longs, acc);
        lemma_emit_rows_wf(
            rows.drop_first(),
            nrows,
            m_idx,
            r_idx + 1,
            p.1,
            p.0,
            bpms,
            offset,
            stops,
        );
    }
}

pub proof fn lemma_emit_measures_wf(
    ms: Seq<Seq<Seq<char>>>,
    m_idx: int,
    longs: Seq<i64>,
    acc: Seq<Arrow>,
    bpms: Seq<SchedEntry>,
    offset: int,
    stops: Seq<SchedEntry>,
)
    requires
        sched_wf(bpms, MIN_BPM as int, PARSE_MAX as int),
        sched_wf(stops, 0, MAX_STOP as int),
        0 <= offset <= MAX_OFFSET,
        0 <= m_idx,
        longs_wf(longs),
        raws_wf(acc),
    ensures
        raws_wf(emit_measures(ms, m_idx, longs, acc, bpms, offset, stops).0),
        longs_wf(emit_measures(ms, m_idx, longs, acc, bpms, offset, stops).1),
    decreases ms.len(),
{
    if ms.len() > 0 && m_idx < MAX_MEASURES {
        lemma_emit_rows_wf(ms[0], ms[0].len() as int, m_idx, 0, longs, acc, bpms, offset, stops);
        let p = emit_rows(ms[0], ms[0].len() as int, m_idx, 0, longs, acc, bpms, offset, stops);
        lemma_emit_measures_wf(ms.drop_first(), m_idx + 1, p.1, p.0, bpms, offset, stops);
    }
}

pub proof fn lemma_emit_cells_len(row: Seq<char>, t: i64, lane: int, longs: Seq<i64>, acc: Seq<Arrow>)
    requires
        longs.len() == LANES,
    ensures
        emit_cells(row, t, lane, longs, acc).1.len() == longs.len(),
    decreases row.len(),
{
    if row.len() > 0 {
        let c = row[0];
        let longs2 = if c == '2' && 0 <= lane < LANES {
            longs.update(lane, t)
        } else {
            longs
        };
        let acc3 = if c == '1' && acc.len() < MAX_NOTES {
            acc.push(
                Arrow {
                    lane: lane as usize,
                    hit_time: t,
                    spawn_time: 0,
                    is_hold: false,
                    end_time: 0,
                },
            )
        } else if c == '3' && 0 <= lane < LANES && acc.len() < MAX_NOTES {
            acc.push(
                Arrow {
                    lane: lane as usize,
                    hit_time: longs[lane],
                    spawn_time: 0,
                    is_hold: true,
                    end_time: t,
                },
            )
        } else {
            acc
        };
        lemma_emit_cells_len(row.drop_first(), t, lane + 1, longs2, acc3);
    }
}

pub proof fn lemma_emit_rows_len(
    rows: Seq<Seq<char>>,
    nrows: int,
    m_idx: int,
    r_idx: int,
    longs: Seq<i64>,
    acc: Seq<Arrow>,
    bpms: Seq<SchedEntry>,
    offset: int,
    stops: Seq<SchedEntry>,
)
    requires
        longs.len() == LANES,
    ensures
        emit_rows(rows, nrows, m_idx, r_idx, longs, acc, bpms, offset, stops).1.len()
            == longs.len(),
    decreases rows.len(),
{
    if rows.len() > 0 {
        let t = beat_time(row_beat(m_idx, r_idx, nrows), bpms, offset, stops) as i64;
        lemma_emit_cells_len(rows[0], t, 0, longs, acc);
        let p = emit_cells(rows[0], t, 0, longs, acc);
        lemma_emit_rows_len(
            rows.drop_first(),
            nrows,
            m_idx,
            r_idx + 1,
            p.1,
            p.0,
            bpms,
            offset,
            stops,
        );
    }
}

pub proof fn lemma_emit_cells_zeros(row: Seq<char>, t: i64, lane: int, longs: Seq<i64>, acc: Seq<Arrow>)
    requires
        forall|j: int| 0 <= j < row.len() ==> row[j] == '0',
    ensures
        emit_cells(row, t, lane, longs, acc) == (acc, longs),
    decreases row.len(),
{
    if row.len() > 0 {
        assert(forall|j: int| 0 <= j < row.len() - 1 ==> row.drop_first()[j] == row[j + 1]);
        lemma_emit_cells_zeros(row.drop_first(), t, lane + 1, longs, acc);
    }
}

/// A row whose only mark sits at lane `l` acts on that lane alone.
pub proof fn lemma_emit_cells_one(
    row: Seq<char>,
    t: i64,
    lane: int,
    l: int,
    longs: Seq<i64>,
    acc: Seq<Arrow>,
)
    requires
        longs.len() == LANES,
        0 <= lane <= l,
        l - lane < row.len(),
        forall|j: int| 0 <= j < row.len() && j != l - lane ==> row[j] == '0',
        0 <= l < LANES,
        acc.len() < MAX_NOTES,
    ensures
        row[l - lane] == '2' ==> emit_cells(row, t, lane, longs, acc) == (acc, longs.update(l, t)),
        row[l - lane] == '3' ==> emit_cells(row, t, lane, longs, acc) == (
            acc.push(
                Arrow {
                    lane: l as usize,
                    hit_time: longs[l],
                    spawn_time: 0,
                    is_hold: true,
                    end_time: t,
                },
            ),
            longs,
        ),
        row[l - lane] == '1' ==> emit_cells(row, t, lane, longs, acc) == (
            acc.push(
                Arrow { lane: l as usize, hit_time: t, spawn_time: 0, is_hold: false, end_time: 0 },
            ),
            longs,
        ),
    decreases row.len(),
{
    assert(forall|j: int| 0 <= j < row.len() - 1 ==> row.drop_first()[j] == row[j + 1]);
    if l == lane {
        let c = row[0];
        if c == '2' {
            lemma_emit_cells_zeros(row.drop_first(), t, lane + 1, longs.update(l, t), acc);
        } else if c == '3' {
            lemma_emit_cells_zeros(
                row.drop_first(),
                t,
                lane + 1,
                longs,
                acc.push(
                    Arrow {
                        lane: l as usize,
                        hit_time: longs[l],
                        spawn_time: 0,
                        is_hold: true,
                        end_time: t,
                    },
                ),
            );
        } else if c == '1' {
            lemma_emit_cells_zeros(
                row.drop_first(),
                t,
                lane + 1,
                longs,
                acc.push(
                    Arrow {
                        lane: l as usize,
                        hit_time: t,
                        spawn_time: 0,
                        is_hold: false,
                        end_time: 0,
                    },
                ),
            );
        }
    } else {
        assert(row[0] == '0');
        lemma_emit_cells_one(row.drop_first(), t, lane + 1, l, longs, acc);
    }
}

/// Law: a `2` and a later `3` in the same lane compile to exactly one
/// note, a hold whose hit time is the `2`'s beat time and whose end
/// time is the `3`'s beat time.
pub proof fn lemma_hold_pair(
    r0: Seq<char>,
    r1: Seq<char>,
    l: int,
    bpms: Seq<SchedEntry>,
    offset: int,
    stops: Seq<SchedEntry>,
)
    requires
        sched_wf(bpms, MIN_BPM as int, PARSE_MAX as int),
        sched_wf(stops, 0, MAX_STOP as int),
        0 <= offset <= MAX_OFFSET,
        0 <= l < LANES,
        l < r0.len(),
        l < r1.len(),
        r0[l] == '2',
        r1[l] == '3',
        forall|j: int| 0 <= j < r0.len() && j != l ==> r0[j] == '0',
        forall|j: int| 0 <= j < r1.len() && j != l ==> r1[j] == '0',
    ensures
        emit_diff(seq![seq![r0, r1]], bpms, offset, stops) == seq![
            Arrow {
                lane: l as usize,
                hit_time: beat_time(0, bpms, offset, stops) as i64,
                spawn_time: 0,
                is_hold: true,
                end_time: beat_time(2_000_000, bpms, offset, stops) as i64,
            },
        ],
{
    let longs0 = seq![0i64, 0i64, 0i64, 0i64];
    let rows = seq![r0, r1];
    let ms = seq![rows];
    assert(ms[0] == rows);
    assert(rows.len() == 2);
    assert(rows[0] == r0);
    assert(rows.drop_first() =~= seq![r1]);
    assert(seq![r1][0] == r1);
    assert(seq![r1].drop_first() =~= Seq::<Seq<char>>::empty());
    assert(ms.drop_first() =~= Seq::<Seq<Seq<char>>>::empty());
    lemma_div_pos_is_pos(MEASURE_UBEATS as int, 2);
    assert(2_000_000 * 2 == 4_000_000);
    vstd::arithmetic::div_mod::lemma_div_by_multiple(2_000_000, 2);
    assert((MEASURE_UBEATS as int) / 2 == 2_000_000);
    assert(row_beat(0, 0, 2) == 0);
    assert(row_beat(0, 1, 2) == 2_000_000);
    lemma_beat_time_bounds(0, bpms, offset, stops);
    lemma_beat_time_bounds(2_000_000, bpms, offset, stops);
    let t0 = beat_time(0, bpms, offset, stops) as i64;
    let t1 = beat_time(2_000_000, bpms, offset, stops) as i64;
    lemma_emit_cells_one(r0, t0, 0, l, longs0, Seq::empty());
    let longs1 = longs0.update(l, t0);
    assert(emit_cells(r0, t0, 0, longs0, Seq::empty()) == (Seq::<Arrow>::empty(), longs1));
    lemma_emit_cells_one(r1, t1, 0, l, longs1, Seq::empty());
    assert(longs1[l] == t0);
    let hold = Arrow { lane: l as usize, hit_time: t0, spawn_time: 0, is_hold: true, end_time: t1 };
    assert(Seq::<Arrow>::empty().push(hold) =~= seq![hold]);
    assert(emit_cells(r1, t1, 0, longs1, Seq::empty()) == (seq![hold], longs1));
    assert(emit_rows(
        Seq::<Seq<char>>::empty(),
        2,
        0,
        2,
        longs1,
        seq![hold],
        bpms,
        offset,
        stops,
    ) == (seq![hold], longs1));
    assert(emit_rows(seq![r1], 2, 0, 1, longs1, Seq::<Arrow>::empty(), bpms, offset, stops) == (
        seq![hold],
        longs1,
    ));
    assert(emit_rows(rows, 2, 0, 0, longs0, Seq::<Arrow>::empty(), bpms, offset, stops) == (
        seq![hold],
        longs1,
    ));
    assert(emit_measures(
        Seq::<Seq<Seq<char>>>::empty(),
        1,
        longs1,
        seq![hold],
        bpms,
        offset,
        stops,
    ) == (seq![hold], longs1));
    assert(emit_measures(ms, 0, longs0, Seq::<Arrow>::empty(), bpms, offset, stops) == (
        seq![hold],
        longs1,
    ));
}

/// Law: a lone `3` with no `2` before it in its lane compiles to a hold
/// whose hit time is the register's stale default, exactly 0.
pub proof fn lemma_lone_hold_tail(
    r0: Seq<char>,
    l: int,
    bpms: Seq<SchedEntry>,
    offset: int,
    stops: Seq<SchedEntry>,
)
    requires
        sched_wf(bpms, MIN_BPM as int, PARSE_MAX as int),
        sched_wf(stops, 0, MAX_STOP as int),
        0 <= offset <= MAX_OFFSET,
        0 <= l < LANES,
        l < r0.len(),
        r0[l] == '3',
        forall|j: int| 0 <= j < r0.len() && j != l ==> r0[j] == '0',
    ensures
        emit_diff(seq![seq![r0]], bpms, offset, stops) == seq![
            Arrow {
                lane: l as usize,
                hit_time: 0,
                spawn_time: 0,
                is_hold: true,
                end_time: beat_time(0, bpms, offset, stops) as i64,
            },
        ],
{
    let longs0 = seq![0i64, 0i64, 0i64, 0i64];
    let rows = seq![r0];
    let ms = seq![rows];
    assert(ms[0] == rows);
    assert(rows.len() == 1);
    assert(rows[0] == r0);
    assert(rows.drop_first() =~= Seq::<Seq<char>>::empty());
    assert(ms.drop_first() =~= Seq::<Seq<Seq<char>>>::empty());
    lemma_fundamental_div_mod(MEASURE_UBEATS as int, 1);
    assert(row_beat(0, 0, 1) == 0);
    lemma_beat_time_bounds(0, bpms, offset, stops);
    let t0 = beat_time(0, bpms, offset, stops) as i64;
    lemma_emit_cells_one(r0, t0, 0, l, longs0, Seq::empty());
    assert(longs0[l] == 0);
    let hold = Arrow { lane: l as usize, hit_time: 0, spawn_time: 0, is_hold: true, end_time: t0 };
    assert(Seq::<Arrow>::empty().push(hold) =~= seq![hold]);
    assert(emit_cells(r0, t0, 0, longs0, Seq::empty()) == (seq![hold], longs0));
    assert(emit_rows(
        Seq::<Seq<char>>::empty(),
        1,
        0,
        1,
        longs0,
        seq![hold],
        bpms,
        offset,
        stops,
    ) == (seq![hold], longs0));
    assert(emit_rows(rows, 1, 0, 0, longs0, Seq::<Arrow>::empty(), bpms, offset, stops) == (
        seq![hold],
        longs0,
    ));
    assert(emit_measures(
        Seq::<Seq<Seq<char>>>::empty(),
        1,
        longs0,
        seq![hold],
        bpms,
        offset,
        stops,
    ) == (seq![hold], longs0));
    assert(emit_measures(ms, 0, longs0, Seq::<Arrow>::empty(), bpms, offset, stops) == (
        seq![hold],
        longs0,
    ));
}

/// Scans one row's cells from `idx` on, emitting notes at row time `t`.
pub fn run_cells(row: &str, idx: usize, t: i64, longs: Vec<i64>, acc: Vec<Arrow>) -> (r: (
    Vec<Arrow>,
    Vec<i64>,
))
    requires
        longs@.len() == LANES,
        idx <= row@.len(),
    ensures
        (r.0@, r.1@) == emit_cells(row@.skip(idx as int), t, idx as int, longs@, acc@),
    decreases row@.len() - idx,
{
    let n = row.unicode_len();
    if idx >= n {
        proof {
            assert(row@.skip(idx as int) =~= Seq::<char>::empty());
        }
        return (acc, longs);
    }
    proof {
        assert(row@.skip(idx as int)[0] == row@[idx as int]);
        assert(row@.skip(idx as int).drop_first() =~= row@.skip(idx as int + 1));
    }
    let c = row.get_char(idx);
    let mut acc = acc;
    let mut longs = longs;
    if c == '1' && acc.len() < MAX_NOTES {
        acc.push(
            Arrow { lane: idx, hit_time: t, spawn_time: 0, is_hold: false, end_time: 0 },
        );
    } else if c == '3' && idx < LANES && acc.len() < MAX_NOTES {
        let h = longs[idx];
        acc.push(Arrow { lane: idx, hit_time: h, spawn_time: 0, is_hold: true, end_time: t });
    }
    if c == '2' && idx < LANES {
        let ghost gl = longs@;
        longs.remove(idx);
        longs.insert(idx, t);
        proof {
            assert(longs@ =~= gl.update(idx as int, t));
        }
    }
    run_cells(row, idx + 1, t, longs, acc)
}

/// Emits the rows of one measure, from row `ridx` on.
pub fn run_rows(
    rows: &Vec<String>,
    ridx: usize,
    m_idx: usize,
    longs: Vec<i64>,
    acc: Vec<Arrow>,
    bpms: &Schedule,
    offset: i64,
    stops: &Schedule,
) -> (r: (Vec<Arrow>, Vec<i64>))
    requires
        sched_wf(bpms.seq(), MIN_BPM as int, PARSE_MAX as int),
        sched_wf(stops.seq(), 0, MAX_STOP as int),
        0 <= offset <= MAX_OFFSET,
        m_idx < MAX_MEASURES,
        ridx <= rows@.len(),
        longs@.len() == LANES,
    ensures
        (r.0@, r.1@) == emit_rows(
            rows.deep_view().skip(ridx as int),
            rows@.len() as int,
            m_idx as int,
            ridx as int,
            longs@,
            acc@,
            bpms.seq(),
            offset as int,
            stops.seq(),
        ),
    decreases rows@.len() - ridx,
{
    let nrows = rows.len();
    if ridx >= nrows {
        proof {
            assert(rows.deep_view().skip(ridx as int) =~= Seq::<Seq<char>>::empty());
        }
        return (acc, longs);
    }
    proof {
        lemma_row_beat_range(m_idx as int, ridx as int, nrows as int);
        lemma_fundamental_div_mod(MEASURE_UBEATS as int, nrows as int);
        lemma_div_pos_is_pos(MEASURE_UBEATS as int, nrows as int);
        lemma_mul_nonnegative(ridx as int, (MEASURE_UBEATS as int) / (nrows as int));
        lemma_mul_inequality(
            ridx as int,
            nrows as int - 1,
            (MEASURE_UBEATS as int) / (nrows as int),
        );
        let qi = (MEASURE_UBEATS as int) / (nrows as int);
        assert((nrows as int - 1) * qi == (nrows as int) * qi - qi) by (nonlinear_arith);
    }
    let q: usize = 4_000_000usize / nrows;
    let rq: u64 = (ridx as u64) * (q as u64);
    let beat: i64 = (m_idx as i64) * MEASURE_UBEATS + (rq as i64);
    proof {
        assert(beat == row_beat(m_idx as int, ridx as int, nrows as int));
    }
    let t = beat_to_time(beat, bpms, offset, stops);
    proof {
        assert(rows.deep_view().skip(ridx as int)[0] == rows.deep_view()[ridx as int]);
        assert(rows.deep_view()[ridx as int] == rows@[ridx as int]@);
        assert(rows.deep_view().skip(ridx as int).drop_first() =~= rows.deep_view().skip(
            ridx as int + 1,
        ));
    }
    proof {
        assert(rows@[ridx as int]@.skip(0) =~= rows@[ridx as int]@);
        lemma_emit_cells_len(rows@[ridx as int]@, t, 0, longs@, acc@);
    }
    let p = run_cells(rows[ridx].as_str(), 0, t, longs, acc);
    run_rows(rows, ridx + 1, m_idx, p.1, p.0, bpms, offset, stops)
}

/// Emits the measures of one difficulty, from measure `midx` on.
pub fn run_measures(
    ms: &Vec<Vec<String>>,
    midx: usize,
    longs: Vec<i64>,
    acc: Vec<Arrow>,
    bpms: &Schedule,
    offset: i64,
    stops: &Schedule,
) -> (r: (Vec<Arrow>, Vec<i64>))
    requires
        sched_wf(bpms.seq(), MIN_BPM as int, PARSE_MAX as int),
        sched_wf(stops.seq(), 0, MAX_STOP as int),
        0 <= offset <= MAX_OFFSET,
        midx <= ms@.len(),
        longs@.len() == LANES,
    ensures
        (r.0@, r.1@) == emit_measures(
            ms.deep_view().skip(midx as int),
            midx as int,
            longs@,
            acc@,
            bpms.seq(),
            offset as int,
            stops.seq(),
        ),
    decreases ms@.len() - midx,
{
    if midx >= ms.len() || midx >= MAX_MEASURES {
        proof {
            if midx >= ms.len() {
                assert(ms.deep_view().skip(midx as int) =~= Seq::<Seq<Seq<char>>>::empty());
            }
        }
        return (acc, longs);
    }
    proof {
        assert(ms.deep_view().skip(midx as int)[0] == ms.deep_view()[midx as int]);
        assert(ms.deep_view()[midx as int] == ms@[midx as int].deep_view());
        assert(ms.deep_view().skip(midx as int).drop_first() =~= ms.deep_view().skip(
            midx as int + 1,
        ));
        assert(ms@[midx as int].deep_view().skip(0) =~= ms@[midx as int].deep_view());
        assert(ms@[midx as int].deep_view().len() == ms@[midx as int]@.len());
    }
    proof {
        lemma_emit_rows_len(
            ms@[midx as int].deep_view(),
            ms@[midx as int]@.len() as int,
            midx as int,
            0,
            longs@,
            acc@,
            bpms.seq(),
            offset as int,
            stops.seq(),
        );
    }
    let p = run_rows(&ms[midx], 0, midx, longs, acc, bpms, offset, stops);
    run_measures(ms, midx + 1, p.1, p.0, bpms, offset, stops)
}

/// All notes of one difficulty, in emission order.
pub fn run_diff(ms: &Vec<Vec<String>>, bpms: &Schedule, offset: i64, stops: &Schedule) -> (r: Vec<
    Arrow,
>)
    requires
        sched_wf(bpms.seq(), MIN_BPM as int, PARSE_MAX as int),
        sched_wf(stops.seq(), 0, MAX_STOP as int),
        0 <= offset <= MAX_OFFSET,
    ensures
        r@ == emit_diff(ms.deep_view(), bpms.seq(), offset as int, stops.seq()),
        raws_wf(r@),
{
    let mut longs: Vec<i64> = Vec::new();
    longs.push(0);
    longs.push(0);
    longs.push(0);
    longs.push(0);
    proof {
        assert(longs@ =~= seq![0i64, 0i64, 0i64, 0i64]);
        assert(ms.deep_view().skip(0) =~= ms.deep_view());
        lemma_emit_measures_wf(
            ms.deep_view(),
            0,
            longs@,
            Seq::empty(),
            bpms.seq(),
            offset as int,
            stops.seq(),
        );
    }
    let p = run_measures(ms, 0, longs, Vec::new(), bpms, offset, stops);
    p.0
}

} // verus!
