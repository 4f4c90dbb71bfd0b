//! The chart compiler's front half: reading `#BPMS` / `#STOPS`
//! declaration blocks into schedules, and scanning the note sections of
//! a chart into measures of rows plus difficulty labels.
use vstd::prelude::*;
use vstd::string::*;
use crate::schedule::{SchedEntry, Schedule, insert_entry, lemma_insert_entry_props, sched_wf};
use crate::text::{
    find_sub,
    find_first,
    find_char,
    first_at,
    lemma_first_at_bounds,
    parse_fixed,
    parse_fixed_spec,
    split_at,
    split_char,
    strip_char,
    strip_char_spec,
    strip_trail,
    strip_trailing,
    starts_with,
    str_starts_with,
    trim,
    trim_spec,
};
use crate::{MAX_BEAT, MAX_SCHED, MAX_STOP, MIN_BPM, PARSE_MAX};

verus! {

/// One playable note event, every time in microseconds of song time.
#[derive(Clone, Copy, PartialEq, Eq, Structural, Debug)]
pub struct Arrow {
    /// Input column the note sits in.
    pub lane: usize,
    /// When the note should be judged (start of the hold, for holds).
    pub hit_time: i64,
    /// When the note becomes visible: hit time minus the approach duration.
    pub spawn_time: i64,
    /// A hold requires input from its hit time to its end time.
    pub is_hold: bool,
    /// End of the required hold; unused (0) for tap notes.
    pub end_time: i64,
}

/// The text of a declaration block: everything between the character
/// after the tag marker and the next `;` (or the end), line breaks
/// removed.
pub open spec fn decl_block(s: Seq<char>, tag: Seq<char>) -> Seq<char> {
    match find_sub(s, tag) {
        Option::None => Seq::empty(),
        Option::Some(i) => {
            let start = i + tag.len() + 1;
            if start > s.len() {
                Seq::empty()
            } else {
                let rest = s.subrange(start, s.len() as int);
                let j = first_at(rest, ';');
                strip_char_spec(rest.subrange(0, j), '\n')
            }
        },
    }
}

/// Folds one `beat=value` item into a schedule: both numbers must
/// parse, the beat must lie in `[0, MAX_BEAT]`, the value in
/// `[lo, hi]`, and the schedule below capacity; otherwise the item is
/// skipped silently.
pub open spec fn sched_add(
    acc: Seq<SchedEntry>,
    item: Seq<char>,
    lo: int,
    hi: int,
    trim_val: bool,
) -> Seq<SchedEntry> {
    let parts = split_at(item, '=');
    if parts.len() <= 1 {
        acc
    } else {
        let vb = parse_fixed_spec(parts[0]);
        let vv = parse_fixed_spec(
            if trim_val {
                trim_spec(parts[1])
            } else {
                parts[1]
            },
        );
        match (vb, vv) {
            (Option::Some(b), Option::Some(v)) => {
                if 0 <= b <= MAX_BEAT && lo <= v <= hi && acc.len() < MAX_SCHED {
                    insert_entry(acc, SchedEntry { beat: b as i64, value: v as i64 })
                } else {
                    acc
                }
            },
            _ => acc,
        }
    }
}

pub open spec fn sched_fold(
    items: Seq<Seq<char>>,
    acc: Seq<SchedEntry>,
    lo: int,
    hi: int,
    trim_val: bool,
) -> Seq<SchedEntry>
    decreases items.len(),
{
    if items.len() == 0 {
        acc
    } else {
        sched_fold(items.drop_first(), sched_add(acc, items[0], lo, hi, trim_val), lo, hi, trim_val)
    }
}

/// The tempo schedule a chart declares (micro-beat to micro-BPM).
pub open spec fn bpms_spec(s: Seq<char>) -> Seq<SchedEntry> {
    sched_fold(
        split_at(decl_block(s, "#BPMS"@), ','),
        Seq::empty(),
        MIN_BPM as int,
        PARSE_MAX as int,
        false,
    )
}

/// The pause schedule a chart declares (micro-beat to microseconds).
pub open spec fn stops_spec(s: Seq<char>) -> Seq<SchedEntry> {
    sched_fold(split_at(decl_block(s, "#STOPS"@), ','), Seq::empty(), 0, MAX_STOP as int, true)
}

pub proof fn lemma_sched_add_wf(acc: Seq<SchedEntry>, item: Seq<char>, lo: int, hi: int, tv: bool)
    requires
        sched_wf(acc, lo, hi),
        -(PARSE_MAX as int) <= lo,
        hi <= PARSE_MAX as int,
    ensures
        sched_wf(sched_add(acc, item, lo, hi, tv), lo, hi),
{
    let parts = split_at(item, '=');
    if parts.len() > 1 {
        let vb = parse_fixed_spec(parts[0]);
        let vv = parse_fixed_spec(
            if tv {
                trim_spec(parts[1])
            } else {
                parts[1]
            },
        );
        match (vb, vv) {
            (Option::Some(b), Option::Some(v)) => {
                if 0 <= b <= MAX_BEAT && lo <= v <= hi && acc.len() < MAX_SCHED {
                    lemma_insert_entry_props(
                        acc,
                        SchedEntry { beat: b as i64, value: v as i64 },
                        lo,
                        hi,
                    );
                }
            },
            _ => {},
        }
    }
}

pub proof fn lemma_sched_fold_wf(
    items: Seq<Seq<char>>,
    acc: Seq<SchedEntry>,
    lo: int,
    hi: int,
    tv: bool,
)
    requires
        sched_wf(acc, lo, hi),
        -(PARSE_MAX as int) <= lo,
        hi <= PARSE_MAX as int,
    ensures
        sched_wf(sched_fold(items, acc, lo, hi, tv), lo, hi),
    decreases items.len(),
{
    if items.len() > 0 {
        lemma_sched_add_wf(acc, items[0], lo, hi, tv);
        lemma_sched_fold_wf(items.drop_first(), sched_add(acc, items[0], lo, hi, tv), lo, hi, tv);
    }
}

/// Reads the declaration block that follows `tag` (text to the next
/// `;`, line breaks removed), one character past the marker itself.
pub fn read_block(contents: &str, tag: &str) -> (r: String)
    ensures
        r@ == decl_block(contents@, tag@),
{
    match find_first(contents, tag) {
        None => String::new(),
        Some(i) => {
            let n = contents.unicode_len();
            let m = tag.unicode_len();
            if i + m >= n {
                String::new()
            } else {
                let start = i + m + 1;
                let rest = contents.substring_char(start, n);
                let j = find_char(rest, ';');
                proof {
                    lemma_first_at_bounds(rest@, ';');
                }
                let piece = rest.substring_char(0, j);
                strip_char(piece, '\n')
            }
        },
    }
}

/// Parses one declaration block into a well-formed schedule; malformed
/// or out-of-range entries are skipped.
#[verifier::loop_isolation(false)]
pub fn parse_sched(contents: &str, tag: &str, lo: i64, hi: i64, trim_val: bool) -> (r: Schedule)
    requires
        -PARSE_MAX <= lo,
        hi <= PARSE_MAX,
    ensures
        r.seq() == sched_fold(
            split_at(decl_block(contents@, tag@), ','),
            Seq::empty(),
            lo as int,
            hi as int,
            trim_val,
        ),
        sched_wf(r.seq(), lo as int, hi as int),
{
    let blk = read_block(contents, tag);
    let items = split_char(blk.as_str(), ',');
    let ghost gitems = split_at(decl_block(contents@, tag@), ',');
    proof {
        assert(items.deep_view() == gitems);
    }
    let mut sched = Schedule::new();
    proof {
        assert(gitems.skip(0) =~= gitems);
    }
    let total = items.len();
    let mut k: usize = 0;
    while k < total
        invariant
            0 <= k <= total,
            total == gitems.len(),
            sched_wf(sched.seq(), lo as int, hi as int),
            sched_fold(gitems.skip(k as int), sched.seq(), lo as int, hi as int, trim_val)
                == sched_fold(gitems, Seq::empty(), lo as int, hi as int, trim_val),
        decreases total - k,
    {
        proof {
            assert(gitems.skip(k as int).drop_first() =~= gitems.skip(k + 1));
            assert(gitems.skip(k as int)[0] == gitems[k as int]);
            assert(items.deep_view()[k as int] == items@[k as int]@);
            lemma_sched_add_wf(sched.seq(), gitems[k as int], lo as int, hi as int, trim_val);
        }
        let item = &items[k];
        let parts = split_char(item.as_str(), '=');
        proof {
            assert(parts.deep_view() == split_at(gitems[k as int], '='));
            assert(parts.deep_view()[0] == parts@[0]@);
        }
        if parts.len() > 1 {
            proof {
                assert(parts.deep_view()[1] == parts@[1]@);
            }
            let pb = parse_fixed(parts[0].as_str());
            let pv = if trim_val {
                parse_fixed(trim(parts[1].as_str()))
            } else {
                parse_fixed(parts[1].as_str())
            };
            match (pb, pv) {
                (Some(b), Some(v)) => {
                    if 0 <= b && b <= MAX_BEAT && lo <= v && v <= hi && sched.len() < MAX_SCHED {
                        sched.insert(b, v);
                    }
                },
                _ => {},
            }
        }
        k += 1;
    }
    proof {
        assert(gitems.skip(total as int) =~= Seq::<Seq<char>>::empty());
    }
    sched
}

/// A measure row: one to a few characters, each `0`..`3`, one per lane.
pub open spec fn row_chars_ok(s: Seq<char>) -> bool {
    s.len() > 0 && forall|i: int|
        0 <= i < s.len() ==> (#[trigger] s[i] == '0' || s[i] == '1' || s[i] == '2' || s[i] == '3')
}

/// The scanner's state between lines.
pub ghost struct ScanState {
    /// A notes block has begun.
    pub parsing: bool,
    /// Lines seen since the block start; the third is the label.
    pub since: int,
    /// Rows of the measure being collected.
    pub row_buf: Seq<Seq<char>>,
    /// Measures of the current difficulty.
    pub measure_buf: Seq<Seq<Seq<char>>>,
    /// Finished difficulties' measures.
    pub sections: Seq<Seq<Seq<Seq<char>>>>,
    /// Difficulty labels, in order of appearance.
    pub labels: Seq<Seq<char>>,
}

pub open spec fn scan_init() -> ScanState {
    ScanState {
        parsing: false,
        since: 0,
        row_buf: Seq::empty(),
        measure_buf: Seq::empty(),
        sections: Seq::empty(),
        labels: Seq::empty(),
    }
}

/// One line of the chart: a `#NOTES` header starts a block (flushing
/// the previous difficulty's measures, though not a pending row - the
/// source format's convention); inside a block, the third line is the
/// label, a `,` closes the measure, and a row of `0`..`3` is kept.
pub open spec fn scan_line(st: ScanState, raw: Seq<char>) -> ScanState {
    let line = trim_spec(raw);
    if starts_with(line, "#NOTES"@) {
        ScanState {
            parsing: true,
            since: 0,
            row_buf: st.row_buf,
            measure_buf: Seq::empty(),
            sections: if st.measure_buf.len() > 0 {
                st.sections.push(st.measure_buf)
            } else {
                st.sections
            },
            labels: st.labels,
        }
    } else if !st.parsing {
        st
    } else {
        let since2 = st.since + 1;
        let labels2 = if since2 == 3 {
            st.labels.push(strip_trail(line, ':'))
        } else {
            st.labels
        };
        if line.len() > 0 && line[0] == ',' {
            ScanState {
                parsing: st.parsing,
                since: since2,
                row_buf: Seq::empty(),
                measure_buf: if st.row_buf.len() > 0 {
                    st.measure_buf.push(st.row_buf)
                } else {
                    st.measure_buf
                },
                sections: st.sections,
                labels: labels2,
            }
        } else if row_chars_ok(line) {
            ScanState {
                parsing: st.parsing,
                since: since2,
                row_buf: st.row_buf.push(line),
                measure_buf: st.measure_buf,
                sections: st.sections,
                labels: labels2,
            }
        } else {
            ScanState {
                parsing: st.parsing,
                since: since2,
                row_buf: st.row_buf,
                measure_buf: st.measure_buf,
                sections: st.sections,
                labels: labels2,
            }
        }
    }
}

pub open spec fn scan_lines(lines: Seq<Seq<char>>, st: ScanState) -> ScanState
    decreases lines.len(),
{
    if lines.len() == 0 {
        st
    } else {
        scan_lines(lines.drop_first(), scan_line(st, lines[0]))
    }
}

/// After the last line, a pending row closes the measure and a pending
/// measure closes the difficulty.
pub open spec fn scan_finish(st: ScanState) -> ScanState {
    let mb = if st.row_buf.len() > 0 {
        st.measure_buf.push(st.row_buf)
    } else {
        st.measure_buf
    };
    ScanState {
        parsing: st.parsing,
        since: st.since,
        row_buf: Seq::empty(),
        measure_buf: Seq::empty(),
        sections: if mb.len() > 0 {
            st.sections.push(mb)
        } else {
            st.sections
        },
        labels: st.labels,
    }
}

/// The whole scan of a chart: its difficulty sections and labels.
pub open spec fn chart_scan(s: Seq<char>) -> ScanState {
    scan_finish(scan_lines(split_at(s, '\n'), scan_init()))
}

/// The scanner's executable state.
pub struct ScanAcc {
    pub parsing: bool,
    /// Lines since the block start, saturated at 4: only "third line"
    /// is ever asked of it.
    pub since: u8,
    pub row_buf: Vec<String>,
    pub measure_buf: Vec<Vec<String>>,
    pub sections: Vec<Vec<Vec<String>>>,
    pub labels: Vec<String>,
}

/// The executable state portrays the ghost state, its line counter
/// saturated.
pub open spec fn scan_rel(e: ScanAcc, g: ScanState) -> bool {
    &&& e.parsing == g.parsing
    &&& g.since >= 0
    &&& e.since == if g.since > 4 { 4int } else { g.since }
    &&& e.row_buf.deep_view() == g.row_buf
    &&& e.measure_buf.deep_view() == g.measure_buf
    &&& e.sections.deep_view() == g.sections
    &&& e.labels.deep_view() == g.labels
}

/// Is the line a measure row (only `0`..`3`, nonempty)?
#[verifier::loop_isolation(false)]
pub fn is_row(line: &str) -> (r: bool)
    ensures
        r == row_chars_ok(line@),
{
    let n = line.unicode_len();
    if n == 0 {
        return false;
    }
    let mut i: usize = 0;
    while i < n
        invariant
            0 <= i <= n,
            forall|j: int|
                0 <= j < i ==> (#[trigger] line@[j] == '0' || line@[j] == '1' || line@[j] == '2'
                    || line@[j] == '3'),
        decreases n - i,
    {
        let c = line.get_char(i);
        if !(c == '0' || c == '1' || c == '2' || c == '3') {
            return false;
        }
        i += 1;
    }
    true
}

/// Feeds one line to the scanner.
pub fn scan_step(st: ScanAcc, raw: &str, Ghost(gst): Ghost<ScanState>) -> (r: ScanAcc)
    requires
        scan_rel(st, gst),
    ensures
        scan_rel(r, scan_line(gst, raw@)),
{
    let ScanAcc { parsing, since, row_buf, measure_buf, sections, labels } = st;
    let line = trim(raw);
    if str_starts_with(line, "#NOTES") {
        let mut sections = sections;
        let ghost gsec = sections.deep_view();
        let ghost gmb = measure_buf.deep_view();
        if measure_buf.len() > 0 {
            sections.push(measure_buf);
            proof {
                assert(sections.deep_view() =~= gsec.push(gmb));
            }
        }
        let r = ScanAcc {
            parsing: true,
            since: 0,
            row_buf,
            measure_buf: Vec::new(),
            sections,
            labels,
        };
        proof {
            let g2 = scan_line(gst, raw@);
            assert(r.sections.deep_view() =~= g2.sections);
            assert(r.measure_buf.deep_view() =~= g2.measure_buf);
        }
        r
    } else if !parsing {
        ScanAcc { parsing, since, row_buf, measure_buf, sections, labels }
    } else {
        let since2: u8 = if since < 4 {
            since + 1
        } else {
            since
        };
        let mut labels = labels;
        if since2 == 3 {
            labels.push(strip_trailing(line, ':'));
            proof {
                assert(labels.deep_view() =~= scan_line(gst, raw@).labels);
            }
        }
        let n = line.unicode_len();
        if n > 0 && line.get_char(0) == ',' {
            let mut measure_buf = measure_buf;
            let mut row_buf = row_buf;
            let ghost gmb = measure_buf.deep_view();
            let ghost grow = row_buf.deep_view();
            if row_buf.len() > 0 {
                measure_buf.push(row_buf);
                row_buf = Vec::new();
                proof {
                    assert(measure_buf.deep_view() =~= gmb.push(grow));
                }
            }
            let r = ScanAcc { parsing, since: since2, row_buf, measure_buf, sections, labels };
            proof {
                let g2 = scan_line(gst, raw@);
                assert(r.measure_buf.deep_view() =~= g2.measure_buf);
                assert(r.row_buf.deep_view() =~= g2.row_buf);
            }
            r
        } else if is_row(line) {
            let mut row_buf = row_buf;
            row_buf.push(line.to_owned());
            let r = ScanAcc { parsing, since: since2, row_buf, measure_buf, sections, labels };
            proof {
                assert(r.row_buf.deep_view() =~= scan_line(gst, raw@).row_buf);
            }
            r
        } else {
            ScanAcc { parsing, since: since2, row_buf, measure_buf, sections, labels }
        }
    }
}

/// Scans every line of the chart and closes what is still open.
#[verifier::loop_isolation(false)]
pub fn scan_chart(contents: &str) -> (r: ScanAcc)
    ensures
        scan_rel(r, chart_scan(contents@)),
{
    let lines = split_char(contents, '\n');
    let ghost glines = split_at(contents@, '\n');
    proof {
        assert(lines.deep_view() == glines);
    }
    let mut st = ScanAcc {
        parsing: false,
        since: 0,
        row_buf: Vec::new(),
        measure_buf: Vec::new(),
        sections: Vec::new(),
        labels: Vec::new(),
    };
    let ghost mut gst = scan_init();
    proof {
        assert(st.row_buf.deep_view() =~= gst.row_buf);
        assert(st.measure_buf.deep_view() =~= gst.measure_buf);
        assert(st.sections.deep_view() =~= gst.sections);
        assert(st.labels.deep_view() =~= gst.labels);
        assert(glines.skip(0) =~= glines);
    }
    let total = lines.len();
    let mut k: usize = 0;
    while k < total
        invariant
            0 <= k <= total,
            total == glines.len(),
            scan_rel(st, gst),
            scan_lines(glines.skip(k as int), gst) == scan_lines(glines, scan_init()),
        decreases total - k,
    {
        proof {
            assert(glines.skip(k as int).drop_first() =~= glines.skip(k + 1));
            assert(glines.skip(k as int)[0] == glines[k as int]);
            assert(lines.deep_view()[k as int] == lines@[k as int]@);
        }
        let line = &lines[k];
        st = scan_step(st, line.as_str(), Ghost(gst));
        proof {
            gst = scan_line(gst, glines[k as int]);
        }
        k += 1;
    }
    proof {
        assert(glines.skip(total as int) =~= Seq::<Seq<char>>::empty());
    }
    // close the pending row and measure, as the end of input does
    let ScanAcc { parsing, since, row_buf, measure_buf, sections, labels } = st;
    let mut measure_buf = measure_buf;
    let mut sections = sections;
    let ghost grow = row_buf.deep_view();
    let ghost gmb = measure_buf.deep_view();
    let ghost gsec = sections.deep_view();
    if row_buf.len() > 0 {
        measure_buf.push(row_buf);
        proof {
            assert(measure_buf.deep_view() =~= gmb.push(grow));
        }
    }
    if measure_buf.len() > 0 {
        let ghost gmb2 = measure_buf.deep_view();
        sections.push(measure_buf);
        proof {
            assert(sections.deep_view() =~= gsec.push(gmb2));
        }
    }
    let r = ScanAcc {
        parsing,
        since,
        row_buf: Vec::new(),
        measure_buf: Vec::new(),
        sections,
        labels,
    };
    proof {
        let gfin = scan_finish(gst);
        assert(r.sections.deep_view() =~= gfin.sections);
        assert(r.measure_buf.deep_view() =~= gfin.measure_buf);
        assert(r.row_buf.deep_view() =~= gfin.row_buf);
    }
    r
}

} // verus!
