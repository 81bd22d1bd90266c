//! Text framing of plotted streams: payload bytes are cut into lines of
//! bounded length, and record sequences are checked for continuity.
use vstd::prelude::*;
use vstd::utf8::valid_utf8;
use crate::text::text_eq;
use crate::registry::{index_of, lemma_index_from};

verus! {

/// A partial line and whether the rest of an oversized line is being skipped.
pub struct LineState {
    pub bytes: Seq<u8>,
    pub dropping: bool,
}

/// One payload byte: a newline ends the line (a trailing carriage return is
/// dropped) unless the line was oversized; other bytes extend the line until it
/// holds `max` bytes, after which the line is discarded up to its newline.
/// Returns the new state, the completed line if any, and whether the line was
/// found oversized.
pub open spec fn line_step(st: LineState, b: u8, max: nat) -> (LineState, Option<Seq<u8>>, bool) {
    if b == 10 {
        let line = if st.bytes.len() > 0 && st.bytes.last() == 13 { st.bytes.drop_last() } else { st.bytes };
        (LineState { bytes: Seq::empty(), dropping: false }, if st.dropping { None } else { Some(line) }, false)
    } else if st.dropping {
        (st, None, false)
    } else if st.bytes.len() == max {
        (LineState { bytes: Seq::empty(), dropping: true }, None, true)
    } else {
        (LineState { bytes: st.bytes.push(b), dropping: false }, None, false)
    }
}

/// Framing `payload` from `st`: the final state, the completed lines in order
/// and how many lines were found oversized.
pub open spec fn frame_lines(st: LineState, payload: Seq<u8>, max: nat) -> (LineState, Seq<Seq<u8>>, nat)
    decreases payload.len(),
{
    if payload.len() == 0 {
        (st, Seq::empty(), 0)
    } else {
        let prev = frame_lines(st, payload.drop_last(), max);
        let step = line_step(prev.0, payload.last(), max);
        (step.0, match step.1 { Some(l) => prev.1.push(l), None => prev.1 }, prev.2 + if step.2 { 1nat } else { 0nat })
    }
}

/// Cuts a byte stream into lines of at most `max_line` bytes.
pub struct LineFramer {
    bytes: Vec<u8>,
    dropping: bool,
}

impl LineFramer {
    pub closed spec fn state(&self) -> LineState {
        LineState { bytes: self.bytes@, dropping: self.dropping }
    }

    /// A framer with no partial line.
    pub fn new() -> (f: LineFramer)
        ensures
            f.state() == (LineState { bytes: Seq::empty(), dropping: false }),
    {
        LineFramer { bytes: Vec::new(), dropping: false }
    }

    /// Drops the partial line, and any oversized line being skipped.
    pub fn clear(&mut self)
        ensures
            final(self).state() == (LineState { bytes: Seq::empty(), dropping: false }),
    {
        self.bytes = Vec::new();
        self.dropping = false;
    }

    /// Bytes of the partial line.
    pub fn pending(&self) -> (n: usize)
        ensures
            n == self.state().bytes.len(),
    {
        self.bytes.len()
    }

    /// Frames `payload`: returns the completed lines and how many oversized
    /// lines were discarded.
    pub fn feed(&mut self, payload: &[u8], max_line: usize) -> (r: (Vec<Vec<u8>>, u64))
        requires
            old(self).state().bytes.len() <= max_line,
        ensures
            ({
                let f = frame_lines(old(self).state(), payload@, max_line as nat);
                &&& final(self).state() == f.0
                &&& r.0@.len() == f.1.len()
                &&& forall|i: int| 0 <= i < r.0@.len() ==> #[trigger] r.0@[i]@ == f.1[i]
                &&& r.1 == f.2
            }),
            final(self).state().bytes.len() <= max_line,
    {
        let ghost start = self.state();
        let mut lines: Vec<Vec<u8>> = Vec::new();
        let mut oversized: u64 = 0;
        let mut i: usize = 0;
        while i < payload.len()
            invariant
                i <= payload@.len(),
                self.bytes@.len() <= max_line,
                oversized <= i,
                ({
                    let f = frame_lines(start, payload@.take(i as int), max_line as nat);
                    &&& self.state() == f.0
                    &&& lines@.len() == f.1.len()
                    &&& forall|j: int| 0 <= j < lines@.len() ==> #[trigger] lines@[j]@ == f.1[j]
                    &&& oversized == f.2
                }),
            decreases payload.len() - i,
        {
            let b = payload[i];
            let ghost prev = frame_lines(start, payload@.take(i as int), max_line as nat);
            proof {
                assert(payload@.take(i as int + 1).drop_last() =~= payload@.take(i as int));
            }
            let ghost before = lines@;
            if b == 10 {
                if !self.dropping {
                    let n = self.bytes.len();
                    if n > 0 && self.bytes[n - 1] == 13 {
                        self.bytes.pop();
                    }
                    let mut line: Vec<u8> = Vec::new();
                    std::mem::swap(&mut line, &mut self.bytes);
                    lines.push(line);
                    proof {
                        assert(lines@[lines@.len() - 1] == line);
                        assert forall|j: int| 0 <= j < lines@.len() implies #[trigger] lines@[j]@ == prev.1.push(line@)[j] by {
                            if j < before.len() {
                                assert(lines@[j] == before[j]);
                            }
                        }
                    }
                }
                self.bytes.clear();
                self.dropping = false;
                assert(self.bytes@ =~= Seq::<u8>::empty());
            } else if !self.dropping {
                if self.bytes.len() == max_line {
                    self.bytes.clear();
                    self.dropping = true;
                    oversized = oversized + 1;
                    assert(self.bytes@ =~= Seq::<u8>::empty());
                } else {
                    self.bytes.push(b);
                }
            }
            i += 1;
        }
        assert(payload@.take(payload@.len() as int) =~= payload@);
        (lines, oversized)
    }
}

/// How a record continues the last one seen on its stream.
#[derive(Clone, Copy, Debug, PartialEq, Eq)]
pub enum Continuity {
    /// The next record, or the first one.
    Next,
    /// At or before the last sequence seen: ignored.
    Duplicate,
    /// A new epoch: earlier coverage is unknown from `from` on.
    EpochChanged { from: u64 },
    /// Sequences `from` up to the record's were skipped.
    Jump { from: u64 },
}

/// How a record of `epoch` numbered `seq` continues a stream last seen at
/// (`last_epoch`, `last_seq`); an empty epoch or sequence 0 means nothing seen.
pub open spec fn continuity(last_epoch: Seq<char>, last_seq: u64, epoch: Seq<char>, seq: u64) -> Continuity {
    if last_epoch.len() > 0 && last_epoch != epoch {
        Continuity::EpochChanged { from: seq }
    } else if last_seq > 0 && seq <= last_seq {
        Continuity::Duplicate
    } else if last_seq > 0 && seq != last_seq + 1 {
        Continuity::Jump { from: (last_seq + 1) as u64 }
    } else {
        Continuity::Next
    }
}

/// Classifies a record against the last one seen on its stream.
pub fn classify(last_epoch: &str, last_seq: u64, epoch: &str, seq: u64) -> (c: Continuity)
    ensures
        c == continuity(last_epoch@, last_seq, epoch@, seq),
{
    if !last_epoch.is_empty() && !text_eq(last_epoch, epoch) {
        Continuity::EpochChanged { from: seq }
    } else if last_seq > 0 && seq <= last_seq {
        Continuity::Duplicate
    } else if last_seq > 0 && seq != last_seq + 1 {
        Continuity::Jump { from: last_seq + 1 }
    } else {
        Continuity::Next
    }
}


/// How many of `lines` are not UTF-8.
pub open spec fn invalid_count(lines: Seq<Seq<u8>>) -> nat
    decreases lines.len(),
{
    if lines.len() == 0 {
        0
    } else {
        invalid_count(lines.drop_last()) + if valid_utf8(lines.last()) { 0nat } else { 1nat }
    }
}

/// The counters of one plotted stream.
#[derive(Clone, Copy, Debug, PartialEq, Eq)]
pub struct PlotCounters {
    /// Records taken.
    pub records: u64,
    /// Records at or before the last sequence seen, ignored.
    pub duplicate_records: u64,
    /// Complete lines framed.
    pub lines: u64,
    /// Complete lines that are not UTF-8.
    pub invalid_utf8: u64,
    /// Lines discarded for exceeding the line limit.
    pub oversized_lines: u64,
    /// Gaps: losses reported, and discontinuities found between records.
    pub gaps: u64,
}

/// One plotted stream: the last record seen, the partial line, and its counters.
pub struct PlotStream {
    epoch: String,
    seq: u64,
    max_line: usize,
    framer: LineFramer,
    counters: PlotCounters,
}

impl PlotStream {
    pub closed spec fn spec_counters(&self) -> PlotCounters {
        self.counters
    }

    /// The stream's counters.
    pub fn counters(&self) -> (c: PlotCounters)
        ensures
            c == self.spec_counters(),
    {
        self.counters
    }

    /// Bytes of the partial line.
    pub fn pending_bytes(&self) -> (n: usize)
        ensures
            n == self.line_state().bytes.len(),
    {
        self.framer.pending()
    }

    pub closed spec fn last_epoch(&self) -> Seq<char> {
        self.epoch@
    }

    pub closed spec fn last_seq(&self) -> u64 {
        self.seq
    }

    pub closed spec fn max_line(&self) -> usize {
        self.max_line
    }

    pub closed spec fn line_state(&self) -> LineState {
        self.framer.state()
    }

    /// The partial line never exceeds the line limit.
    pub closed spec fn wf(&self) -> bool {
        self.framer.state().bytes.len() <= self.max_line
    }

    /// A stream with nothing seen, lines limited to `max_line` bytes.
    pub fn new(max_line: usize) -> (p: PlotStream)
        ensures
            p.wf(),
            p.last_epoch().len() == 0,
            p.last_seq() == 0,
            p.max_line() == max_line,
            p.line_state() == (LineState { bytes: Seq::empty(), dropping: false }),
            p.spec_counters() == (PlotCounters { records: 0, duplicate_records: 0, lines: 0, invalid_utf8: 0, oversized_lines: 0, gaps: 0 }),
    {
        PlotStream {
            epoch: String::new(),
            seq: 0,
            max_line,
            framer: LineFramer::new(),
            counters: PlotCounters { records: 0, duplicate_records: 0, lines: 0, invalid_utf8: 0, oversized_lines: 0, gaps: 0 },
        }
    }

    /// A loss of sequences `from..to` reported on the stream in `epoch`: the
    /// partial line is dropped, the stream continues before `to`, and the gap
    /// is counted.
    pub fn gap(&mut self, epoch: &str, to: u64)
        requires
            old(self).wf(),
            old(self).spec_counters().gaps < u64::MAX,
        ensures
            final(self).wf(),
            final(self).max_line() == old(self).max_line(),
            final(self).line_state() == (LineState { bytes: Seq::empty(), dropping: false }),
            final(self).last_epoch() == epoch@,
            final(self).last_seq() == if to == 0 { 0 } else { (to - 1) as u64 },
            final(self).spec_counters() == (PlotCounters { gaps: (old(self).spec_counters().gaps + 1) as u64, ..old(self).spec_counters() }),
    {
        self.framer.clear();
        self.seq = if to == 0 { 0 } else { to - 1 };
        self.epoch = epoch.to_owned();
        self.counters.gaps = self.counters.gaps + 1;
    }

    /// Takes the record (`epoch`, `seq`) with `payload`. A duplicate is only
    /// counted. A record after a new epoch or a sequence jump first counts a
    /// gap and drops the partial line. Any record that is not a duplicate
    /// becomes the last seen, its payload is framed into lines, and the record,
    /// its complete lines, those not UTF-8 and the oversized lines discarded
    /// are counted. Returns how the record continues the stream and the
    /// complete lines.
    pub fn ingest(&mut self, epoch: &str, seq: u64, payload: &[u8]) -> (r: (Continuity, Vec<Vec<u8>>))
        requires
            old(self).wf(),
            old(self).spec_counters().records < u64::MAX,
            old(self).spec_counters().duplicate_records < u64::MAX,
            old(self).spec_counters().gaps < u64::MAX,
            old(self).spec_counters().lines + payload@.len() <= u64::MAX,
            old(self).spec_counters().invalid_utf8 + payload@.len() <= u64::MAX,
            old(self).spec_counters().oversized_lines + payload@.len() <= u64::MAX,
        ensures
            final(self).wf(),
            final(self).max_line() == old(self).max_line(),
            r.0 == continuity(old(self).last_epoch(), old(self).last_seq(), epoch@, seq),
            r.0 == Continuity::Duplicate ==> {
                &&& r.1@.len() == 0
                &&& final(self).spec_counters() == (PlotCounters { duplicate_records: (old(self).spec_counters().duplicate_records + 1) as u64, ..old(self).spec_counters() })
                &&& final(self).last_epoch() == old(self).last_epoch()
                &&& final(self).last_seq() == old(self).last_seq()
                &&& final(self).line_state() == old(self).line_state()
            },
            r.0 != Continuity::Duplicate ==> {
                let start = if r.0 == Continuity::Next { old(self).line_state() } else { LineState { bytes: Seq::empty(), dropping: false } };
                let f = frame_lines(start, payload@, old(self).max_line() as nat);
                &&& final(self).last_epoch() == epoch@
                &&& final(self).last_seq() == seq
                &&& final(self).line_state() == f.0
                &&& r.1@.len() == f.1.len()
                &&& forall|i: int| 0 <= i < r.1@.len() ==> #[trigger] r.1@[i]@ == f.1[i]
                &&& final(self).spec_counters() == (PlotCounters {
                    records: (old(self).spec_counters().records + 1) as u64,
                    duplicate_records: old(self).spec_counters().duplicate_records,
                    lines: (old(self).spec_counters().lines + f.1.len()) as u64,
                    invalid_utf8: (old(self).spec_counters().invalid_utf8 + invalid_count(f.1)) as u64,
                    oversized_lines: (old(self).spec_counters().oversized_lines + f.2) as u64,
                    gaps: if r.0 == Continuity::Next { old(self).spec_counters().gaps } else { (old(self).spec_counters().gaps + 1) as u64 },
                })
            },
    {
        let c = classify(self.epoch.as_str(), self.seq, epoch, seq);
        match c {
            Continuity::Duplicate => {
                self.counters.duplicate_records = self.counters.duplicate_records + 1;
                return (c, Vec::new());
            },
            Continuity::Next => {},
            _ => {
                self.framer.clear();
                self.counters.gaps = self.counters.gaps + 1;
            },
        }
        self.epoch = epoch.to_owned();
        self.seq = seq;
        let ghost st = self.framer.state();
        proof {
            lemma_frame_bounds(st, payload@, self.max_line as nat);
        }
        let (lines, oversized) = self.framer.feed(payload, self.max_line);
        let ghost f = frame_lines(st, payload@, self.max_line as nat);
        let mut invalid: u64 = 0;
        let mut i: usize = 0;
        while i < lines.len()
            invariant
                i <= lines@.len(),
                lines@.len() == f.1.len(),
                f.1.len() <= payload@.len(),
                forall|j: int| 0 <= j < lines@.len() ==> #[trigger] lines@[j]@ == f.1[j],
                invalid == invalid_count(f.1.take(i as int)),
                invalid <= i,
            decreases lines@.len() - i,
        {
            assert(f.1.take(i + 1).drop_last() =~= f.1.take(i as int));
            if crate::replay::utf8_text(lines[i].as_slice()).is_none() {
                invalid = invalid + 1;
            }
            i += 1;
        }
        assert(f.1.take(lines@.len() as int) =~= f.1);
        self.counters.records = self.counters.records + 1;
        self.counters.lines = self.counters.lines + lines.len() as u64;
        self.counters.invalid_utf8 = self.counters.invalid_utf8 + invalid;
        self.counters.oversized_lines = self.counters.oversized_lines + oversized;
        (c, lines)
    }
}

/// Framing `payload` completes and discards at most one line per byte.
proof fn lemma_frame_bounds(st: LineState, payload: Seq<u8>, max: nat)
    ensures
        frame_lines(st, payload, max).1.len() <= payload.len(),
        frame_lines(st, payload, max).2 <= payload.len(),
    decreases payload.len(),
{
    if payload.len() > 0 {
        lemma_frame_bounds(st, payload.drop_last(), max);
    }
}


/// At most this many plot sessions.
pub const MAX_SESSIONS: usize = 16;
/// At most this many series per session.
pub const MAX_SERIES: usize = 8;
/// At most this many retained points over all sessions' series.
pub const MAX_TOTAL_POINTS: usize = 131072;

/// Why a plot session is not created or changed.
#[derive(Clone, Copy, Debug, PartialEq, Eq)]
pub enum SessionError {
    /// Already `MAX_SESSIONS` sessions.
    TooManySessions,
    /// A session with that id exists.
    SessionExists,
    /// No session has that id.
    UnknownSession,
    /// The change was made against another revision than the current one.
    RevisionConflict { current: u64 },
    /// A session needs 1..=8 series.
    SeriesCount,
    /// A series keeps 16..=8192 points.
    MaxPoints,
    /// The sessions' points together would exceed `MAX_TOTAL_POINTS`.
    PointBudget,
}

/// One session as the point budget sees it: its id, revision, points kept
/// per series and number of series.
pub type SlotView = (Seq<char>, u64, int, int);

/// The points a session may keep.
pub open spec fn slot_points(s: SlotView) -> int {
    s.2 * s.3
}

/// The points the sessions may keep, leaving out the one with id `skip`.
pub open spec fn allocated(slots: Seq<SlotView>, skip: Option<Seq<char>>) -> int
    decreases slots.len(),
{
    if slots.len() == 0 {
        0
    } else {
        allocated(slots.drop_last(), skip) + if skip == Some(slots.last().0) { 0 } else { slot_points(slots.last()) }
    }
}

/// Why a session of `series` series keeping `max_points` each is malformed.
pub open spec fn shape_fault(max_points: int, series: int) -> Option<SessionError> {
    if !(1 <= series <= MAX_SERIES) {
        Some(SessionError::SeriesCount)
    } else if !(16 <= max_points <= 8192) {
        Some(SessionError::MaxPoints)
    } else {
        None
    }
}

pub open spec fn slot_ids(slots: Seq<SlotView>) -> Seq<Seq<char>> {
    slots.map_values(|s: SlotView| s.0)
}

/// Why creating session `id` is refused, if it is.
pub open spec fn create_fault(slots: Seq<SlotView>, id: Seq<char>, max_points: int, series: int) -> Option<SessionError> {
    if slots.len() >= MAX_SESSIONS {
        Some(SessionError::TooManySessions)
    } else if index_of(slot_ids(slots), id) is Some {
        Some(SessionError::SessionExists)
    } else if shape_fault(max_points, series) is Some {
        shape_fault(max_points, series)
    } else if allocated(slots, None) + max_points * series > MAX_TOTAL_POINTS {
        Some(SessionError::PointBudget)
    } else {
        None
    }
}

/// Why changing session `id`, seen at `revision`, is refused, if it is.
pub open spec fn patch_fault(slots: Seq<SlotView>, id: Seq<char>, revision: u64, max_points: int, series: int) -> Option<SessionError> {
    match index_of(slot_ids(slots), id) {
        None => Some(SessionError::UnknownSession),
        Some(k) => if slots[k].1 != revision {
            Some(SessionError::RevisionConflict { current: slots[k].1 })
        } else if shape_fault(max_points, series) is Some {
            shape_fault(max_points, series)
        } else if allocated(slots, Some(id)) + max_points * series > MAX_TOTAL_POINTS {
            Some(SessionError::PointBudget)
        } else {
            None
        },
    }
}

/// One session's place in the point budget.
#[derive(Clone, Debug)]
pub struct SessionSlot {
    pub id: String,
    pub revision: u64,
    pub max_points: usize,
    pub series: usize,
}

pub open spec fn slot_view(s: SessionSlot) -> SlotView {
    (s.id@, s.revision, s.max_points as int, s.series as int)
}

/// The plot sessions' ids, revisions and point allocations.
pub struct PlotSessions {
    slots: Vec<SessionSlot>,
}

/// Each session is well shaped and sessions are few enough; ids are distinct;
/// together they keep within the point budget.
pub open spec fn sessions_ok(slots: Seq<SlotView>) -> bool {
    &&& slots.len() <= MAX_SESSIONS
    &&& forall|i: int| 0 <= i < slots.len() ==> shape_fault((#[trigger] slots[i]).2, slots[i].3) is None
    &&& forall|i: int, j: int| 0 <= i < j < slots.len() ==> slots[i].0 != slots[j].0
    &&& allocated(slots, None) <= MAX_TOTAL_POINTS
}

proof fn lemma_slot_points(s: SlotView)
    requires
        shape_fault(s.2, s.3) is None,
    ensures
        0 <= slot_points(s) <= 65536,
{
    assert(0 <= s.2 * s.3 <= 8192 * 8) by (nonlinear_arith)
        requires
            1 <= s.3 <= 8,
            16 <= s.2 <= 8192;
}

/// The allocation of well-shaped sessions is at most 65536 points each.
proof fn lemma_allocated_bounds(slots: Seq<SlotView>, skip: Option<Seq<char>>)
    requires
        forall|i: int| 0 <= i < slots.len() ==> shape_fault((#[trigger] slots[i]).2, slots[i].3) is None,
    ensures
        0 <= allocated(slots, skip) <= 65536 * slots.len(),
    decreases slots.len(),
{
    if slots.len() > 0 {
        lemma_allocated_bounds(slots.drop_last(), skip);
        lemma_slot_points(slots.last());
    }
}

/// Replacing the session `k` (whose id is `skip`) by one with the same id
/// changes only its own share.
proof fn lemma_allocated_update(slots: Seq<SlotView>, k: int, t: SlotView, skip: Option<Seq<char>>)
    requires
        0 <= k < slots.len(),
        t.0 == slots[k].0,
        forall|i: int, j: int| 0 <= i < j < slots.len() ==> slots[i].0 != slots[j].0,
    ensures
        allocated(slots.update(k, t), Some(t.0)) == allocated(slots, Some(t.0)),
        allocated(slots, None) == allocated(slots, Some(t.0)) + slot_points(slots[k]),
        allocated(slots.update(k, t), None) == allocated(slots, Some(t.0)) + slot_points(t),
    decreases slots.len(),
{
    let u = slots.update(k, t);
    if k < slots.len() - 1 {
        let d = slots.drop_last();
        assert(u.drop_last() =~= d.update(k, t));
        assert forall|i: int, j: int| 0 <= i < j < d.len() implies d[i].0 != d[j].0 by {
            assert(d[i] == slots[i] && d[j] == slots[j]);
        }
        lemma_allocated_update(d, k, t, skip);
        assert(u.last() == slots.last());
        assert(slots.last().0 != t.0);
    } else {
        assert(u.drop_last() =~= slots.drop_last());
        lemma_allocated_skip_absent(slots.drop_last(), t.0);
        assert forall|i: int| 0 <= i < slots.drop_last().len() implies slots.drop_last()[i].0 != t.0 by {
            assert(slots.drop_last()[i] == slots[i]);
        }
        lemma_allocated_skip_absent(slots.drop_last(), t.0);
    }
}

/// Leaving out an id no session has leaves the allocation whole.
proof fn lemma_allocated_skip_absent(slots: Seq<SlotView>, id: Seq<char>)
    ensures
        (forall|i: int| 0 <= i < slots.len() ==> slots[i].0 != id) ==> allocated(slots, Some(id)) == allocated(slots, None),
    decreases slots.len(),
{
    if slots.len() > 0 {
        lemma_allocated_skip_absent(slots.drop_last(), id);
        if forall|i: int| 0 <= i < slots.len() ==> slots[i].0 != id {
            assert forall|i: int| 0 <= i < slots.drop_last().len() implies slots.drop_last()[i].0 != id by {
                assert(slots.drop_last()[i] == slots[i]);
            }
            assert(slots.last() == slots[slots.len() - 1]);
        }
    }
}

impl PlotSessions {
    pub closed spec fn spec_slots(&self) -> Seq<SlotView> {
        self.slots@.map_values(|s: SessionSlot| slot_view(s))
    }

    pub closed spec fn wf(&self) -> bool {
        sessions_ok(self.spec_slots())
    }

    /// Law: the sessions never exceed `MAX_SESSIONS`, nor together the point budget.
    pub proof fn lemma_bounded(&self)
        requires
            self.wf(),
        ensures
            sessions_ok(self.spec_slots()),
    {
    }

    /// No sessions.
    pub fn new() -> (p: PlotSessions)
        ensures
            p.wf(),
            p.spec_slots().len() == 0,
    {
        let p = PlotSessions { slots: Vec::new() };
        assert(p.spec_slots() =~= Seq::<SlotView>::empty());
        p
    }

    /// Creates session `id`, revision 1, of `series` series keeping
    /// `max_points` points each, unless refused.
    pub fn create(&mut self, id: &str, max_points: usize, series: usize) -> (r: Result<(), SessionError>)
        requires
            old(self).wf(),
        ensures
            final(self).wf(),
            r == match create_fault(old(self).spec_slots(), id@, max_points as int, series as int) {
                Some(e) => Err::<(), SessionError>(e),
                None => Ok(()),
            },
            r is Ok ==> final(self).spec_slots() == old(self).spec_slots().push((id@, 1u64, max_points as int, series as int)),
            r is Err ==> final(self).spec_slots() == old(self).spec_slots(),
    {
        let ghost sv = self.spec_slots();
        if self.slots.len() >= MAX_SESSIONS {
            return Err(SessionError::TooManySessions);
        }
        if self.find(id).is_some() {
            return Err(SessionError::SessionExists);
        }
        if series < 1 || series > MAX_SERIES {
            return Err(SessionError::SeriesCount);
        }
        if max_points < 16 || max_points > 8192 {
            return Err(SessionError::MaxPoints);
        }
        let a = self.allocated_without(None);
        proof {
            lemma_slot_points((id@, 1u64, max_points as int, series as int));
        }
        if a + max_points * series > MAX_TOTAL_POINTS {
            return Err(SessionError::PointBudget);
        }
        let ghost t: SlotView = (id@, 1u64, max_points as int, series as int);
        self.slots.push(SessionSlot { id: id.to_owned(), revision: 1, max_points, series });
        proof {
            let nv = self.spec_slots();
            assert(nv =~= sv.push(t));
            assert(nv.drop_last() =~= sv);
            lemma_index_from(slot_ids(sv), id@, 0);
            assert forall|i: int, j: int| 0 <= i < j < nv.len() implies nv[i].0 != nv[j].0 by {
                if j == sv.len() {
                    assert(slot_ids(sv)[i] == sv[i].0);
                }
            }
        }
        Ok(())
    }

    /// Changes session `id`, seen at `revision`, to `series` series keeping
    /// `max_points` points each, unless refused; returns the new revision.
    pub fn patch(&mut self, id: &str, revision: u64, max_points: usize, series: usize) -> (r: Result<u64, SessionError>)
        requires
            old(self).wf(),
            forall|i: int| 0 <= i < old(self).spec_slots().len() ==> (#[trigger] old(self).spec_slots()[i]).1 < u64::MAX,
        ensures
            final(self).wf(),
            match patch_fault(old(self).spec_slots(), id@, revision, max_points as int, series as int) {
                Some(e) => r == Err::<u64, SessionError>(e) && final(self).spec_slots() == old(self).spec_slots(),
                None => r == Ok::<u64, SessionError>((revision + 1) as u64) && final(self).spec_slots() == old(self).spec_slots().update(
                    index_of(slot_ids(old(self).spec_slots()), id@)->0,
                    (id@, (revision + 1) as u64, max_points as int, series as int),
                ),
            },
    {
        let ghost sv = self.spec_slots();
        let k = match self.find(id) {
            None => return Err(SessionError::UnknownSession),
            Some(k) => k,
        };
        proof {
            lemma_index_from(slot_ids(sv), id@, 0);
            assert(slot_ids(sv)[k as int] == sv[k as int].0);
        }
        assert(sv[k as int] == slot_view(self.slots@[k as int]));
        if self.slots[k].revision != revision {
            return Err(SessionError::RevisionConflict { current: self.slots[k].revision });
        }
        if series < 1 || series > MAX_SERIES {
            return Err(SessionError::SeriesCount);
        }
        if max_points < 16 || max_points > 8192 {
            return Err(SessionError::MaxPoints);
        }
        let a = self.allocated_without(Some(k));
        let ghost t: SlotView = (id@, (revision + 1) as u64, max_points as int, series as int);
        proof {
            lemma_slot_points(t);
            lemma_allocated_bounds(sv, Some(id@));
        }
        if a + max_points * series > MAX_TOTAL_POINTS {
            return Err(SessionError::PointBudget);
        }
        let mut slot = SessionSlot { id: id.to_owned(), revision: revision + 1, max_points, series };
        self.slots.set_and_swap(k, &mut slot);
        proof {
            let nv = self.spec_slots();
            assert(nv =~= sv.update(k as int, t));
            lemma_allocated_update(sv, k as int, t, Some(id@));
            assert forall|i: int, j: int| 0 <= i < j < nv.len() implies nv[i].0 != nv[j].0 by {
                assert(nv[i].0 == sv[i].0 && nv[j].0 == sv[j].0);
            }
            assert forall|i: int| 0 <= i < nv.len() implies shape_fault((#[trigger] nv[i]).2, nv[i].3) is None by {
                if i != k {
                    assert(nv[i] == sv[i]);
                }
            }
        }
        Ok(revision + 1)
    }

    /// The position of session `id`.
    fn find(&self, id: &str) -> (o: Option<usize>)
        ensures
            crate::registry::as_int(o) == index_of(slot_ids(self.spec_slots()), id@),
    {
        let ghost ids = slot_ids(self.spec_slots());
        let mut k: usize = 0;
        while k < self.slots.len()
            invariant
                k <= self.slots@.len(),
                ids == slot_ids(self.spec_slots()),
                ids.len() == self.slots@.len(),
                crate::registry::index_from(ids, id@, 0) == crate::registry::index_from(ids, id@, k as int),
            decreases self.slots@.len() - k,
        {
            assert(ids[k as int] == self.slots@[k as int].id@);
            if text_eq(self.slots[k].id.as_str(), id) {
                return Some(k);
            }
            k += 1;
        }
        None
    }

    /// The points the sessions keep, leaving out session `skip` (by position).
    fn allocated_without(&self, skip: Option<usize>) -> (n: usize)
        requires
            self.wf(),
            skip matches Some(k) ==> k < self.spec_slots().len(),
        ensures
            n == allocated(self.spec_slots(), match skip {
                Some(k) => Some(self.spec_slots()[k as int].0),
                None => None,
            }),
    {
        let ghost sv = self.spec_slots();
        let ghost sk = match skip {
            Some(k) => Some(sv[k as int].0),
            None => None,
        };
        let mut total: usize = 0;
        let mut i: usize = 0;
        while i < self.slots.len()
            invariant
                i <= self.slots@.len(),
                sv == self.spec_slots(),
                sv.len() == self.slots@.len(),
                sessions_ok(sv),
                skip matches Some(k) ==> k < sv.len(),
                sk == match skip {
                    Some(k) => Some(sv[k as int].0),
                    None => None,
                },
                total == allocated(sv.take(i as int), sk),
                total <= 65536 * i,
            decreases self.slots@.len() - i,
        {
            let ghost t = sv.take(i as int + 1);
            assert(t.drop_last() =~= sv.take(i as int));
            assert(t.last() == sv[i as int]);
            assert(sv[i as int] == slot_view(self.slots@[i as int]));
            proof {
                lemma_slot_points(sv[i as int]);
            }
            let same = match skip {
                Some(k) => text_eq(self.slots[i].id.as_str(), self.slots[k].id.as_str()),
                None => false,
            };
            if !same {
                assert(self.slots@[i as int].max_points * self.slots@[i as int].series <= 65536);
                total = total + self.slots[i].max_points * self.slots[i].series;
            }
            i += 1;
        }
        assert(sv.take(sv.len() as int) =~= sv);
        total
    }
}


/// Bounded retention: the oldest points leave until at most `max` remain.
pub fn keep_latest<T>(points: &mut Vec<T>, max: usize)
    ensures
        final(points)@ == if old(points)@.len() > max { old(points)@.skip(old(points)@.len() - max) } else { old(points)@ },
{
    let ghost start = points@;
    while points.len() > max
        invariant
            start.len() > max ==> points@ == start.skip(start.len() - points@.len()) && max <= points@.len() <= start.len(),
            start.len() <= max ==> points@ == start,
        decreases points@.len(),
    {
        let ghost before = points@;
        assert(start.len() > max);
        points.remove(0);
        assert(points@ =~= before.remove(0));
        let ghost d = start.len() - before.len();
        assert(before == start.skip(d));
        assert forall|j: int| 0 <= j < points@.len() implies points@[j] == start.skip(d + 1)[j] by {
            assert(points@[j] == before[j + 1]);
            assert(before[j + 1] == start[d + j + 1]);
        }
        assert(points@ =~= start.skip(d + 1));
    }
}


/// Law: how a record numbered `seq` of `epoch` continues a stream last seen at
/// (`last_epoch`, `last_seq`). Another epoch than a seen one is an epoch change
/// from the record on. Within the same epoch (or with none seen yet): a record
/// at or below the last sequence seen is a duplicate; the one right after it,
/// or any first record, is the next; one further on is a jump that lost the
/// sequences from just after the last one seen.
pub proof fn lemma_continuity_cases(last_epoch: Seq<char>, last_seq: u64, epoch: Seq<char>, seq: u64)
    ensures
        last_epoch.len() > 0 && last_epoch != epoch ==> continuity(last_epoch, last_seq, epoch, seq)
            == (Continuity::EpochChanged { from: seq }),
        (last_epoch.len() == 0 || last_epoch == epoch) && last_seq > 0 && seq <= last_seq
            ==> continuity(last_epoch, last_seq, epoch, seq) == Continuity::Duplicate,
        (last_epoch.len() == 0 || last_epoch == epoch) && (last_seq == 0 || seq == last_seq + 1)
            ==> continuity(last_epoch, last_seq, epoch, seq) == Continuity::Next,
        (last_epoch.len() == 0 || last_epoch == epoch) && last_seq > 0 && seq > last_seq + 1
            ==> continuity(last_epoch, last_seq, epoch, seq) == (Continuity::Jump { from: (last_seq + 1) as u64 }),
{
}

} // verus!
