//! A memory-only stream: a bounded buffer of the newest records in receive order.
//! When either cap is exceeded the oldest records are overwritten first.
use vstd::prelude::*;
use std::collections::VecDeque;
use crate::record::{FaultCode, Record};

verus! {

/// A buffered record together with its encoded size in bytes.
#[derive(Clone, Debug)]
pub struct Entry {
    pub record: Record,
    pub size: usize,
}

/// Total encoded size of a run of entries.
pub open spec fn total_size(s: Seq<Entry>) -> int
    decreases s.len(),
{
    if s.len() == 0 {
        0
    } else {
        total_size(s.drop_last()) + s.last().size
    }
}

/// Whether a run of entries exceeds either the record cap or the byte cap.
pub open spec fn over_caps(s: Seq<Entry>, max_records: int, max_bytes: int) -> bool {
    s.len() > max_records || total_size(s) > max_bytes
}

/// What remains of `s` after dropping its oldest entries while either cap is exceeded.
pub open spec fn retained(s: Seq<Entry>, max_records: int, max_bytes: int) -> Seq<Entry>
    decreases s.len(),
{
    if s.len() > 0 && over_caps(s, max_records, max_bytes) {
        retained(s.drop_first(), max_records, max_bytes)
    } else {
        s
    }
}

/// Entries hold consecutive sequence numbers ending at `head`.
pub open spec fn contiguous(s: Seq<Entry>, head: int) -> bool {
    forall|i: int| 0 <= i < s.len() ==> #[trigger] s[i].record.seq == head - s.len() + 1 + i
}

pub proof fn lemma_total_size_nonneg(s: Seq<Entry>)
    ensures
        total_size(s) >= 0,
    decreases s.len(),
{
    if s.len() > 0 {
        lemma_total_size_nonneg(s.drop_last());
    }
}

/// Dropping the oldest entry removes exactly its size.
pub proof fn lemma_total_size_drop_first(s: Seq<Entry>)
    requires
        s.len() > 0,
    ensures
        total_size(s) == s[0].size + total_size(s.drop_first()),
    decreases s.len(),
{
    if s.len() > 1 {
        lemma_total_size_drop_first(s.drop_last());
        assert(s.drop_last().drop_first() =~= s.drop_first().drop_last());
        assert(s.drop_first().last() == s.last());
        assert(s.drop_last()[0] == s[0]);
    } else {
        assert(total_size(s.drop_first()) == 0);
        assert(total_size(s.drop_last()) == 0);
    }
}

/// The retained run is a suffix and keeps the newest entry when it alone fits.
pub proof fn lemma_retained(s: Seq<Entry>, max_records: int, max_bytes: int)
    requires
        max_records >= 1,
        max_bytes >= 0,
        s.len() > 0 ==> s.last().size <= max_bytes,
    ensures
        ({
            let r = retained(s, max_records, max_bytes);
            &&& r.len() <= s.len()
            &&& r =~= s.subrange(s.len() - r.len(), s.len() as int)
            &&& !over_caps(r, max_records, max_bytes)
            &&& s.len() > 0 ==> r.len() > 0
        }),
    decreases s.len(),
{
    if s.len() > 0 && over_caps(s, max_records, max_bytes) {
        let t = s.drop_first();
        if t.len() == 0 {
            // A single entry that fits cannot be over either cap.
            assert(s.len() == 1);
            assert(total_size(s.drop_last()) == 0);
            assert(total_size(s) == s.last().size);
            assert(false);
        }
        assert(t.last() == s.last());
        lemma_retained(t, max_records, max_bytes);
        let r = retained(t, max_records, max_bytes);
        assert(r =~= s.subrange(s.len() - r.len(), s.len() as int));
    } else {
        assert(s =~= s.subrange(0, s.len() as int));
    }
}

/// Buffer statistics and records returned by a read.
#[derive(Clone, Debug)]
pub struct Batch {
    pub stream: String,
    pub epoch: String,
    pub from: u64,
    pub next: u64,
    pub head: u64,
    pub oldest: u64,
    pub records: Vec<Record>,
}

/// One stream and its bounded buffer.
pub struct Stream {
    pub id: String,
    pub alias: Option<String>,
    pub owner: String,
    pub description: String,
    pub parents: Vec<String>,
    pub epoch: String,
    pub head: u64,
    pub buffer: VecDeque<Entry>,
    pub bytes: usize,
    pub writer: Option<u64>,
}

impl Stream {
    /// The buffer invariant: consecutive sequences ending at `head`, an exact byte
    /// count, and records that name this stream and its epoch.
    pub open spec fn wf(&self) -> bool {
        &&& self.buffer@.len() <= self.head
        &&& contiguous(self.buffer@, self.head as int)
        &&& self.bytes == total_size(self.buffer@)
        &&& forall|i: int| 0 <= i < self.buffer@.len() ==> {
            &&& (#[trigger] self.buffer@[i]).record.stream@ == self.id@
            &&& self.buffer@[i].record.epoch@ == self.epoch@
        }
    }

    /// The oldest retained sequence, or `head + 1` (saturating) when nothing is retained.
    pub open spec fn spec_oldest(&self) -> u64 {
        if self.buffer@.len() > 0 {
            self.buffer@[0].record.seq
        } else if self.head == u64::MAX {
            u64::MAX
        } else {
            (self.head + 1) as u64
        }
    }

    /// A fresh stream with no records and no active writer. `id` and `epoch`
    /// are the runtime identity and incarnation chosen by the caller.
    pub fn fresh(
        id: String,
        epoch: String,
        owner: String,
        alias: Option<String>,
        description: String,
        parents: Vec<String>,
    ) -> (s: Stream)
        ensures
            s.wf(),
            s.id == id,
            s.epoch == epoch,
            s.owner == owner,
            s.alias == alias,
            s.description == description,
            s.parents == parents,
            s.head == 0,
            s.buffer@.len() == 0,
            s.writer is None,
    {
        Stream {
            id,
            alias,
            owner,
            description,
            parents,
            epoch,
            head: 0,
            buffer: VecDeque::new(),
            bytes: 0,
            writer: None,
        }
    }

    /// The oldest retained sequence, or `head + 1` when the buffer is empty.
    pub fn oldest(&self) -> (o: u64)
        ensures
            o == self.spec_oldest(),
    {
        if self.buffer.len() > 0 {
            self.buffer[0].record.seq
        } else {
            self.head.saturating_add(1)
        }
    }

    /// Whether the retained records respect both caps.
    pub open spec fn within(&self, max_records: int, max_bytes: int) -> bool {
        !over_caps(self.buffer@, max_records, max_bytes)
    }

    /// Appends `record`, numbered `head + 1`, whose encoded size is `size`, then
    /// overwrites the oldest records while either cap is exceeded.
    pub fn append(&mut self, record: Record, size: usize, max_records: usize, max_bytes: usize)
        requires
            old(self).wf(),
            old(self).within(max_records as int, max_bytes as int),
            old(self).head < u64::MAX,
            record.seq == old(self).head + 1,
            record.stream@ == old(self).id@,
            record.epoch@ == old(self).epoch@,
            1 <= max_records,
            size <= max_bytes,
            max_bytes <= 1073741824,
        ensures
            final(self).wf(),
            final(self).within(max_records as int, max_bytes as int),
            final(self).head == old(self).head + 1,
            final(self).buffer@ == retained(
                old(self).buffer@.push(Entry { record, size }),
                max_records as int,
                max_bytes as int,
            ),
            final(self).id == old(self).id,
            final(self).epoch == old(self).epoch,
            final(self).alias == old(self).alias,
            final(self).owner == old(self).owner,
            final(self).description == old(self).description,
            final(self).parents == old(self).parents,
            final(self).writer == old(self).writer,
    {
        let ghost pushed = old(self).buffer@.push(Entry { record, size });
        let ghost target = retained(pushed, max_records as int, max_bytes as int);
        proof {
            lemma_total_size_nonneg(old(self).buffer@);
            assert(pushed.drop_last() =~= old(self).buffer@);
            lemma_retained(pushed, max_records as int, max_bytes as int);
        }
        self.head = record.seq;
        self.bytes = self.bytes + size;
        self.buffer.push_back(Entry { record, size });
        assert(self.buffer@ =~= pushed);
        while self.buffer.len() > max_records || self.bytes > max_bytes
            invariant
                retained(self.buffer@, max_records as int, max_bytes as int) == target,
                self.bytes == total_size(self.buffer@),
                self.head == old(self).head + 1,
                self.buffer@.len() <= self.head,
                contiguous(self.buffer@, self.head as int),
                forall|i: int| 0 <= i < self.buffer@.len() ==> {
                    &&& (#[trigger] self.buffer@[i]).record.stream@ == self.id@
                    &&& self.buffer@[i].record.epoch@ == self.epoch@
                },
                self.id == old(self).id,
                self.epoch == old(self).epoch,
                self.alias == old(self).alias,
                self.owner == old(self).owner,
                self.description == old(self).description,
                self.parents == old(self).parents,
                self.writer == old(self).writer,
                max_bytes >= 0,
            decreases self.buffer@.len(),
        {
            let ghost before = self.buffer@;
            proof {
                if before.len() == 0 {
                    assert(total_size(before) == 0);
                }
                lemma_total_size_drop_first(before);
                lemma_total_size_nonneg(before.drop_first());
            }
            let e = self.buffer.pop_front().unwrap();
            assert(self.buffer@ =~= before.drop_first());
            self.bytes = self.bytes - e.size;
            assert forall|i: int| 0 <= i < self.buffer@.len() implies #[trigger] self.buffer@[i].record.seq
                == self.head - self.buffer@.len() + 1 + i by {
                assert(self.buffer@[i] == before[i + 1]);
            }
            assert forall|i: int| 0 <= i < self.buffer@.len() implies {
                &&& (#[trigger] self.buffer@[i]).record.stream@ == self.id@
                &&& self.buffer@[i].record.epoch@ == self.epoch@
            } by {
                assert(self.buffer@[i] == before[i + 1]);
            }
        }
    }

    /// The records with sequence at least `from` (0 meaning the oldest retained),
    /// at most `limit` of them and, beyond the first, within `wire_budget` bytes.
    pub fn batch(&self, from: u64, limit: usize, wire_budget: usize) -> (r: Result<Batch, FaultCode>)
        requires
            self.wf(),
            self.head < u64::MAX,
        ensures
            ({
                let start = batch_start(self, from);
                let rest = pending_from(self, start);
                match r {
                    Err(code) => code == FaultCode::CursorAhead && start > self.head + 1,
                    Ok(b) => {
                        &&& start <= self.head + 1
                        &&& b.stream@ == self.id@
                        &&& b.epoch@ == self.epoch@
                        &&& b.from == start
                        &&& b.head == self.head
                        &&& b.oldest == self.spec_oldest()
                        &&& batch_taken(rest, limit as int, wire_budget as int, b.records@.len() as int)
                        &&& forall|i: int| 0 <= i < b.records@.len() ==> #[trigger] b.records@[i]@ == rest[i].record@
                        &&& b.next == if b.records@.len() == 0 { start as int } else { b.records@.last().seq + 1 }
                    },
                }
            }),
    {
        let oldest = self.oldest();
        let start = if from == 0 {
            oldest
        } else if from > oldest {
            from
        } else {
            oldest
        };
        if start > self.head.saturating_add(1) {
            return Err(FaultCode::CursorAhead);
        }
        let ghost rest = pending_from(self, start);
        let mut records: Vec<Record> = Vec::new();
        let mut bytes: usize = 0;
        let mut i: usize = 0;
        let len = self.buffer.len();
        // index of the first entry at or after `start`
        let first: usize = if len > 0 { (start - oldest) as usize } else { 0 };
        proof {
            lemma_filter_suffix(self.buffer@, start, first as int);
        }
        i = first;
        while i < len
            invariant
                self.wf(),
                self.head < u64::MAX,
                first <= i <= len,
                len == self.buffer@.len(),
                rest =~= self.buffer@.skip(first as int),
                records@.len() == i - first,
                bytes == total_size(rest.take(records@.len() as int)),
                forall|j: int| 0 <= j < records@.len() ==> #[trigger] records@[j]@ == rest[j].record@,
                records@.len() <= limit,
                records@.len() <= 1 || bytes <= wire_budget,
            ensures
                batch_taken(rest, limit as int, wire_budget as int, records@.len() as int),
                bytes == total_size(rest.take(records@.len() as int)),
                forall|j: int| 0 <= j < records@.len() ==> #[trigger] records@[j]@ == rest[j].record@,
            decreases len - i,
        {
            let size = self.buffer[i].size;
            let n = records.len();
            if n >= limit || (n > 0 && (size > wire_budget || bytes > wire_budget - size)) {
                proof {
                    if n < limit {
                        lemma_take_push_size(rest, n as int);
                    }
                }
                break;
            }
            proof {
                lemma_take_push_size(rest, n as int);
            }
            let r = self.buffer[i].record.duplicate();
            records.push(r);
            bytes = bytes + size;
            i = i + 1;
        }
        proof {
            if records@.len() > 0 {
                let n = records@.len() - 1;
                assert(records@[n]@ == rest[n].record@);
                assert(rest[n] == self.buffer@[first + n]);
            }
        }
        let next = if records.len() == 0 {
            start
        } else {
            records[records.len() - 1].seq + 1
        };
        Ok(Batch {
            stream: self.id.clone(),
            epoch: self.epoch.clone(),
            from: start,
            next,
            head: self.head,
            oldest,
            records,
        })
    }
}

/// Where a read starts: the oldest retained record for cursor 0, else the later
/// of the cursor and the oldest retained record.
pub open spec fn batch_start(s: &Stream, from: u64) -> u64 {
    if from == 0 || from <= s.spec_oldest() {
        s.spec_oldest()
    } else {
        from
    }
}

/// The retained entries at or after sequence `start`.
pub open spec fn pending_from(s: &Stream, start: u64) -> Seq<Entry> {
    s.buffer@.filter(|e: Entry| e.record.seq >= start)
}

/// `n` entries of `rest` are taken: at most `limit`, the first always, later ones
/// only while the running encoded size stays within `budget`; taking stops at the
/// first entry that does not fit.
pub open spec fn batch_taken(rest: Seq<Entry>, limit: int, budget: int, n: int) -> bool {
    &&& 0 <= n <= rest.len()
    &&& n <= limit
    &&& (n <= 1 || total_size(rest.take(n)) <= budget)
    &&& (n == rest.len() || n == limit || (n >= 1 && total_size(rest.take(n + 1)) > budget))
}

/// For entries ordered by sequence, those at or after `start` form the suffix
/// beginning at the first such entry.
pub proof fn lemma_filter_suffix(s: Seq<Entry>, start: u64, k: int)
    requires
        0 <= k <= s.len(),
        forall|i: int| 0 <= i < k ==> #[trigger] s[i].record.seq < start,
        forall|i: int| k <= i < s.len() ==> #[trigger] s[i].record.seq >= start,
    ensures
        s.filter(|e: Entry| e.record.seq >= start) =~= s.skip(k),
    decreases s.len(),
{
    reveal_with_fuel(Seq::filter, 1);
    if s.len() > 0 {
        let d = s.drop_last();
        if k == s.len() {
            lemma_filter_suffix(d, start, k - 1);
        } else {
            lemma_filter_suffix(d, start, k);
            assert(s.skip(k) =~= d.skip(k).push(s.last()));
        }
    }
}

pub proof fn lemma_take_push_size(s: Seq<Entry>, n: int)
    requires
        0 <= n < s.len(),
    ensures
        total_size(s.take(n + 1)) == total_size(s.take(n)) + s[n].size,
{
    assert(s.take(n + 1).drop_last() =~= s.take(n));
}

/// Law: a reader waiting at a stream's tail is handed exactly the record
/// published next. After a record numbered `head + 1` is appended (and the
/// oldest records overwritten as the caps require), a read from `head + 1`
/// finds that record alone, and takes it whatever its limit (at least one) and
/// byte budget.
pub proof fn lemma_tail_reads_new_record(
    s: Stream,
    t: Stream,
    e: Entry,
    max_records: int,
    max_bytes: int,
    limit: int,
    budget: int,
    n: int,
)
    requires
        s.wf(),
        s.head < u64::MAX,
        e.record.seq == s.head + 1,
        t.head == s.head + 1,
        t.buffer@ == retained(s.buffer@.push(e), max_records, max_bytes),
        max_records >= 1,
        0 <= e.size <= max_bytes,
        limit >= 1,
    ensures
        pending_from(&t, batch_start(&t, (s.head + 1) as u64)) == seq![e],
        batch_taken(seq![e], limit, budget, n) <==> n == 1,
{
    let pushed = s.buffer@.push(e);
    lemma_total_size_nonneg(s.buffer@);
    assert(pushed.drop_last() =~= s.buffer@);
    lemma_retained(pushed, max_records, max_bytes);
    let r = t.buffer@;
    let k = r.len() - 1;
    assert(r.last() == e);
    assert forall|i: int| 0 <= i < k implies #[trigger] r[i].record.seq < s.head + 1 by {
        assert(r[i] == pushed[pushed.len() - r.len() + i]);
        assert(pushed[pushed.len() - r.len() + i] == s.buffer@[pushed.len() - r.len() + i]);
    }
    if r[0].record.seq > s.head + 1 {
        assert(r.len() == 1 || r[0].record.seq < s.head + 1);
    }
    assert(t.spec_oldest() <= s.head + 1);
    assert(batch_start(&t, (s.head + 1) as u64) == s.head + 1);
    lemma_filter_suffix(r, (s.head + 1) as u64, k);
    assert(r.skip(k) =~= seq![e]);
    assert(seq![e].take(1) =~= seq![e]);
}

} // verus!
