//! Tempo and pause schedules: association lists of breakpoints kept in
//! strictly ascending beat order, so that a walk in beat order is the
//! plain order of the entries.
use vstd::prelude::*;
use crate::{MAX_BEAT, MAX_SCHED};

verus! {

/// One breakpoint: a beat position in micro-beats and the value taking
/// effect there (micro-BPM for tempo, microseconds for a pause).
#[derive(Clone, Copy, PartialEq, Eq, Structural)]
pub struct SchedEntry {
    pub beat: i64,
    pub value: i64,
}

/// Breakpoints sorted by strictly ascending beat.
pub struct Schedule {
    pub entries: Vec<SchedEntry>,
}

pub open spec fn sorted_by_beat(s: Seq<SchedEntry>) -> bool {
    forall|i: int, j: int| 0 <= i < j < s.len() ==> #[trigger] s[i].beat < #[trigger] s[j].beat
}

pub open spec fn beats_in_range(s: Seq<SchedEntry>) -> bool {
    forall|i: int| 0 <= i < s.len() ==> 0 <= #[trigger] s[i].beat <= MAX_BEAT
}

pub open spec fn values_in(s: Seq<SchedEntry>, lo: int, hi: int) -> bool {
    forall|i: int| 0 <= i < s.len() ==> lo <= #[trigger] s[i].value <= hi
}

/// A well-formed schedule: sorted, in range, within capacity.
pub open spec fn sched_wf(s: Seq<SchedEntry>, lo: int, hi: int) -> bool {
    sorted_by_beat(s) && beats_in_range(s) && values_in(s, lo, hi) && s.len() <= MAX_SCHED
}

/// Sorted insertion; an entry already at that beat is replaced.
pub open spec fn insert_entry(s: Seq<SchedEntry>, e: SchedEntry) -> Seq<SchedEntry>
    decreases s.len(),
{
    if s.len() == 0 {
        seq![e]
    } else if e.beat < s[0].beat {
        seq![e] + s
    } else if e.beat == s[0].beat {
        seq![e] + s.drop_first()
    } else {
        seq![s[0]] + insert_entry(s.drop_first(), e)
    }
}

/// Smallest beat that can appear in `insert_entry(s, e)`.
pub open spec fn insert_low(s: Seq<SchedEntry>, e: SchedEntry) -> int {
    if s.len() == 0 || e.beat < s[0].beat {
        e.beat as int
    } else {
        s[0].beat as int
    }
}

pub proof fn lemma_insert_entry_props(s: Seq<SchedEntry>, e: SchedEntry, lo: int, hi: int)
    requires
        sorted_by_beat(s),
        beats_in_range(s),
        values_in(s, lo, hi),
        0 <= e.beat <= MAX_BEAT,
        lo <= e.value <= hi,
    ensures
        sorted_by_beat(insert_entry(s, e)),
        beats_in_range(insert_entry(s, e)),
        values_in(insert_entry(s, e), lo, hi),
        s.len() <= insert_entry(s, e).len() <= s.len() + 1,
        forall|k: int|
            0 <= k < insert_entry(s, e).len() ==> #[trigger] insert_entry(s, e)[k].beat
                >= insert_low(s, e),
    decreases s.len(),
{
    if s.len() == 0 {
    } else if e.beat < s[0].beat {
    } else if e.beat == s[0].beat {
        assert(forall|j: int| 0 <= j < s.len() - 1 ==> s.drop_first()[j] == s[j + 1]);
    } else {
        let t = s.drop_first();
        assert(forall|j: int| 0 <= j < t.len() ==> t[j] == s[j + 1]);
        lemma_insert_entry_props(t, e, lo, hi);
        let r = insert_entry(s, e);
        let ri = insert_entry(t, e);
        assert(forall|k: int| 1 <= k < r.len() ==> r[k] == ri[k - 1]);
        assert(insert_low(t, e) > s[0].beat);
    }
}

pub proof fn lemma_insert_entry_at(s: Seq<SchedEntry>, e: SchedEntry, i: int)
    requires
        0 <= i <= s.len(),
        forall|j: int| 0 <= j < i ==> #[trigger] s[j].beat < e.beat,
        i < s.len() ==> s[i].beat >= e.beat,
    ensures
        insert_entry(s, e) == if i < s.len() && s[i].beat == e.beat {
            s.update(i, e)
        } else {
            s.insert(i, e)
        },
    decreases s.len(),
{
    if i == 0 {
        if s.len() == 0 {
            assert(insert_entry(s, e) =~= s.insert(0, e));
        } else if e.beat < s[0].beat {
            assert(insert_entry(s, e) =~= s.insert(0, e));
        } else {
            assert(s[0].beat == e.beat);
            assert(insert_entry(s, e) =~= s.update(0, e));
        }
    } else {
        let t = s.drop_first();
        assert(forall|j: int| 0 <= j < t.len() ==> t[j] == s[j + 1]);
        lemma_insert_entry_at(t, e, i - 1);
        if i < s.len() && s[i].beat == e.beat {
            assert(insert_entry(s, e) =~= s.update(i, e));
        } else {
            assert(insert_entry(s, e) =~= s.insert(i, e));
        }
    }
}

impl Schedule {
    pub open spec fn seq(self) -> Seq<SchedEntry> {
        self.entries@
    }

    pub fn new() -> (r: Schedule)
        ensures
            r.seq() == Seq::<SchedEntry>::empty(),
    {
        Schedule { entries: Vec::new() }
    }

    pub fn len(&self) -> (r: usize)
        ensures
            r == self.seq().len(),
    {
        self.entries.len()
    }

    /// Sorted insertion of a breakpoint; a breakpoint already at that
    /// beat is overwritten, as a later declaration supersedes it.
    #[verifier::loop_isolation(false)]
    pub fn insert(&mut self, beat: i64, value: i64)
        requires
            sorted_by_beat(old(self).seq()),
        ensures
            final(self).seq() == insert_entry(old(self).seq(), SchedEntry { beat, value }),
    {
        let e = SchedEntry { beat, value };
        let n = self.entries.len();
        let mut i: usize = 0;
        while i < n && self.entries[i].beat < beat
            invariant
                0 <= i <= n,
                forall|j: int| 0 <= j < i ==> #[trigger] self.entries@[j].beat < beat,
            decreases n - i,
        {
            i += 1;
        }
        proof {
            lemma_insert_entry_at(self.entries@, e, i as int);
        }
        if i < n && self.entries[i].beat == beat {
            self.entries.remove(i);
            self.entries.insert(i, e);
            proof {
                assert(old(self).seq().remove(i as int).insert(i as int, e) =~= old(
                    self,
                ).seq().update(i as int, e));
            }
        } else {
            self.entries.insert(i, e);
        }
    }
}

} // verus!
