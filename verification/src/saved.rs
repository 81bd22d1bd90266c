//! Streams of the persistent Core: publication is idempotent by key, a stream
//! may keep its whole history in an attached store, and a failed store write
//! blocks the stream until it is resumed. The store is disk I/O and stays
//! outside: what it answered reaches these decisions as plain values, and the
//! decisions say what has to be written next.
use vstd::prelude::*;
use std::collections::VecDeque;
use crate::record::{FaultCode, Record, RecordView, pairs_view, text_pairs_view, pairs_eq, text_pairs_eq};
use crate::registry::Fault;
use crate::proto::CoreOptions;
use crate::limits::MAX_PAYLOAD;
use crate::stream::{
    Entry, total_size, retained, contiguous, over_caps, lemma_retained, lemma_total_size_nonneg,
    lemma_total_size_drop_first,
};
use crate::text::{bytes_eq, text_eq, append_str, append_decimal, decimal};

verus! {

/// Longest idempotency key, in bytes.
pub const MAX_KEY: usize = 256;

/// A publication request for one stream.
#[derive(Clone, Debug)]
pub struct Publish {
    pub stream: String,
    /// Idempotency key: publishing the same key again returns the first record.
    pub key: String,
    pub payload: Vec<u8>,
    pub source_ts_ns: Option<u64>,
    /// Parent stream id and parent sequence, in parent-id order.
    pub upstream: Vec<(String, u64)>,
}

/// One stream of the persistent Core and its bounded buffer of recent records.
/// Every record of a stream whose history is saved is durable once accepted.
pub struct SavedStream {
    pub id: String,
    pub owner: String,
    pub parents: Vec<String>,
    /// What the saved history is bound to (stream, owner, parents).
    pub identity: String,
    pub epoch: String,
    pub head: u64,
    /// Recent records, each with its payload length.
    pub buffer: VecDeque<Entry>,
    pub bytes: usize,
    /// Whether the stream's history is to be saved.
    pub saved: bool,
    /// Whether a store is attached.
    pub attached: bool,
    /// Why writing is refused, after a store failure.
    pub blocked: Option<String>,
    /// Publications accepted for writing.
    pub received: u64,
    /// The key whose store write had no confirmed outcome.
    pub uncommitted_key: Option<String>,
    /// The last sequence dropped from the buffer.
    pub evicted: u64,
}

/// What became of an accepted publication.
#[derive(Debug)]
pub enum Published {
    /// The key was known with the same content: the first record.
    Existing(Record),
    /// A new record that the attached store has to write before it counts.
    Pending(Record),
    /// A new record, now in the buffer.
    Buffered(Record),
}

/// The refusal `code` with the text `m`.
fn fault(code: FaultCode, m: &str) -> (f: Fault)
    ensures
        f.code == code,
        f.message@ == m@,
{
    Fault { code, message: m.to_owned() }
}

/// The first buffered record with key `key`.
pub open spec fn find_key(s: Seq<Entry>, key: Seq<char>) -> Option<Record>
    decreases s.len(),
{
    if s.len() == 0 {
        None
    } else if s[0].record.key@ == key {
        Some(s[0].record)
    } else {
        find_key(s.drop_first(), key)
    }
}

/// Whether a known record carries what `p` asks to publish, with parent epochs `epochs`.
pub open spec fn same_content(r: RecordView, p: Publish, epochs: Seq<(Seq<char>, Seq<char>)>) -> bool {
    &&& r.payload == p.payload@
    &&& r.source_ts_ns == p.source_ts_ns
    &&& r.upstream == pairs_view(p.upstream@)
    &&& r.upstream_epochs == epochs
}

/// The last sequence dropped when `before` was cut down to its suffix `after`.
pub open spec fn evicted_after(before: Seq<Entry>, after: Seq<Entry>, evicted: u64) -> u64 {
    if after.len() < before.len() {
        before[before.len() - after.len() - 1].record.seq
    } else {
        evicted
    }
}

/// Whether a publication request is within the size limits: a payload of at
/// most `max_payload` bytes and a key of 1 to 256 bytes.
pub open spec fn publish_fits(p: Publish, max_payload: int) -> bool {
    &&& p.payload@.len() <= max_payload
    &&& vstd::utf8::encode_utf8(p.key@).len() > 0
    &&& vstd::utf8::encode_utf8(p.key@).len() <= MAX_KEY
}

/// The record already published under `key`: the store's answer when a store
/// is attached, else the buffered record with that key.
pub open spec fn known_record(
    s: SavedStream,
    key: Seq<char>,
    found: Option<Result<Option<Record>, String>>,
) -> Option<Record> {
    match found {
        Some(Ok(k)) => k,
        Some(Err(_)) => None,
        None => find_key(s.buffer@, key),
    }
}

/// The record that `s` numbers next for `p`.
pub open spec fn next_record(
    s: SavedStream,
    p: Publish,
    epochs: Seq<(Seq<char>, Seq<char>)>,
    observed: u64,
) -> RecordView {
    RecordView {
        stream: s.id@,
        epoch: s.epoch@,
        seq: (s.head + 1) as u64,
        key: p.key@,
        payload: p.payload@,
        source_ts_ns: p.source_ts_ns,
        observed_ts_ns: observed,
        upstream: pairs_view(p.upstream@),
        upstream_epochs: epochs,
        source_seq: None,
        channel: None,
    }
}

/// Whether `hay` holds `needle` as consecutive characters.
pub open spec fn has_infix(hay: Seq<char>, needle: Seq<char>) -> bool {
    exists|i: int| 0 <= i && i + needle.len() <= hay.len() && #[trigger] hay.subrange(i, i + needle.len()) == needle
}

/// Whether `hay` holds `needle` as consecutive characters.
pub fn contains_infix(hay: &str, needle: &str) -> (b: bool)
    ensures
        b == has_infix(hay@, needle@),
{
    let n = hay.unicode_len();
    let m = needle.unicode_len();
    if m > n {
        proof {
            assert forall|i: int| 0 <= i && i + needle@.len() <= hay@.len() implies #[trigger] hay@.subrange(
                i,
                i + needle@.len(),
            ) != needle@ by {}
        }
        return false;
    }
    let mut i: usize = 0;
    while i <= n - m
        invariant
            n == hay@.len(),
            m == needle@.len(),
            m <= n,
            i <= n - m + 1,
            forall|k: int| 0 <= k < i ==> #[trigger] hay@.subrange(k, k + m) != needle@,
        decreases n - m + 1 - i,
    {
        let mut j: usize = 0;
        let mut same = true;
        while j < m
            invariant
                n == hay@.len(),
                m == needle@.len(),
                i + m <= n,
                j <= m,
                same == (forall|t: int| 0 <= t < j ==> hay@[i + t] == #[trigger] needle@[t]),
            decreases m - j,
        {
            if hay.get_char(i + j) != needle.get_char(j) {
                same = false;
            }
            j += 1;
        }
        if same {
            assert(hay@.subrange(i as int, i + m) =~= needle@);
            return true;
        }
        proof {
            let t = choose|t: int| 0 <= t < m && !(hay@[i + t] == needle@[t]);
            assert(hay@.subrange(i as int, i + m)[t] == hay@[i + t]);
        }
        i += 1;
    }
    proof {
        assert forall|k: int| 0 <= k && k + needle@.len() <= hay@.len() implies #[trigger] hay@.subrange(
            k,
            k + needle@.len(),
        ) != needle@ by {
            assert(k < i);
        }
    }
    false
}

impl SavedStream {
    /// The buffer invariant: consecutive sequences ending at `head`, each entry
    /// sized by its payload, and an exact byte count.
    pub open spec fn wf(&self) -> bool {
        &&& self.buffer@.len() <= self.head
        &&& contiguous(self.buffer@, self.head as int)
        &&& self.bytes == total_size(self.buffer@)
        &&& forall|i: int|
            0 <= i < self.buffer@.len() ==> (#[trigger] self.buffer@[i]).size
                == self.buffer@[i].record.payload@.len()
    }

    /// Whether the buffer respects both caps.
    pub open spec fn within(&self, max_records: int, max_bytes: int) -> bool {
        !over_caps(self.buffer@, max_records, max_bytes)
    }

    /// The fields that no operation changes.
    pub open spec fn same_identity(&self, other: &SavedStream) -> bool {
        &&& self.id == other.id
        &&& self.owner == other.owner
        &&& self.parents == other.parents
        &&& self.identity == other.identity
        &&& self.saved == other.saved
    }

    /// The oldest sequence a reader can still be given: 1 when a store holds
    /// the whole history, else the oldest buffered record, else `head + 1`.
    pub open spec fn spec_oldest(&self) -> int {
        if self.attached {
            1
        } else if self.buffer@.len() > 0 {
            self.buffer@[0].record.seq as int
        } else {
            self.head + 1
        }
    }

    /// A stream with no records yet and no store attached. `epoch` is the
    /// incarnation chosen by the caller.
    pub fn new(id: String, owner: String, parents: Vec<String>, identity: String, epoch: String, saved: bool) -> (s: SavedStream)
        ensures
            s.wf(),
            s.id == id,
            s.owner == owner,
            s.parents == parents,
            s.identity == identity,
            s.epoch == epoch,
            s.saved == saved,
            s.head == 0,
            s.buffer@.len() == 0,
            !s.attached,
            s.blocked is None,
            s.received == 0,
            s.uncommitted_key is None,
            s.evicted == 0,
    {
        SavedStream {
            id,
            owner,
            parents,
            identity,
            epoch,
            head: 0,
            buffer: VecDeque::new(),
            bytes: 0,
            saved,
            attached: false,
            blocked: None,
            received: 0,
            uncommitted_key: None,
            evicted: 0,
        }
    }

    /// The oldest sequence a reader can still be given.
    pub fn oldest(&self) -> (o: u64)
        requires
            self.head < u64::MAX,
        ensures
            o == self.spec_oldest(),
    {
        if self.attached {
            1
        } else if self.buffer.len() > 0 {
            self.buffer[0].record.seq
        } else {
            self.head + 1
        }
    }

    /// Drops the oldest records while either cap is exceeded.
    pub fn trim(&mut self, max_records: usize, max_bytes: usize)
        requires
            old(self).wf(),
        ensures
            final(self).wf(),
            final(self).within(max_records as int, max_bytes as int),
            final(self).buffer@ == retained(old(self).buffer@, max_records as int, max_bytes as int),
            final(self).evicted == evicted_after(old(self).buffer@, final(self).buffer@, old(self).evicted),
            final(self).same_identity(old(self)),
            final(self).epoch == old(self).epoch,
            final(self).head == old(self).head,
            final(self).attached == old(self).attached,
            final(self).blocked == old(self).blocked,
            final(self).received == old(self).received,
            final(self).uncommitted_key == old(self).uncommitted_key,
    {
        let ghost start = old(self).buffer@;
        let ghost target = retained(start, max_records as int, max_bytes as int);
        while self.buffer.len() > max_records || self.bytes > max_bytes
            invariant
                retained(self.buffer@, max_records as int, max_bytes as int) == target,
                self.bytes == total_size(self.buffer@),
                self.buffer@.len() <= start.len(),
                self.buffer@ == start.subrange(start.len() - self.buffer@.len(), start.len() as int),
                self.evicted == evicted_after(start, self.buffer@, old(self).evicted),
                self.buffer@.len() <= self.head,
                contiguous(self.buffer@, self.head as int),
                forall|i: int|
                    0 <= i < self.buffer@.len() ==> (#[trigger] self.buffer@[i]).size
                        == self.buffer@[i].record.payload@.len(),
                self.same_identity(old(self)),
                self.epoch == old(self).epoch,
                self.head == old(self).head,
                self.attached == old(self).attached,
                self.blocked == old(self).blocked,
                self.received == old(self).received,
                self.uncommitted_key == old(self).uncommitted_key,
            decreases self.buffer@.len(),
        {
            let ghost before = self.buffer@;
            proof {
                if before.len() == 0 {
                    assert(total_size(before) == 0);
                }
                lemma_total_size_drop_first(before);
                lemma_total_size_nonneg(before.drop_first());
            }
            let e = self.buffer.pop_front().unwrap();
            assert(self.buffer@ =~= before.drop_first());
            self.bytes = self.bytes - e.size;
            self.evicted = e.record.seq;
            assert(self.buffer@ =~= start.subrange(start.len() - self.buffer@.len(), start.len() as int));
            assert(e == start[start.len() - self.buffer@.len() - 1]);
            assert forall|i: int| 0 <= i < self.buffer@.len() implies #[trigger] self.buffer@[i].record.seq
                == self.head - self.buffer@.len() + 1 + i by {
                assert(self.buffer@[i] == before[i + 1]);
            }
            assert forall|i: int| 0 <= i < self.buffer@.len() implies (#[trigger] self.buffer@[i]).size
                == self.buffer@[i].record.payload@.len() by {
                assert(self.buffer@[i] == before[i + 1]);
            }
        }
    }

    /// Appends `record`, numbered `head + 1`, then trims to the caps.
    fn push(&mut self, record: Record, max_records: usize, max_bytes: usize)
        requires
            old(self).wf(),
            old(self).within(max_records as int, max_bytes as int),
            old(self).head < u64::MAX,
            record.seq == old(self).head + 1,
            record.payload@.len() <= max_bytes,
            max_bytes <= 1073741824,
        ensures
            final(self).wf(),
            final(self).within(max_records as int, max_bytes as int),
            final(self).head == old(self).head + 1,
            final(self).buffer@ == retained(
                old(self).buffer@.push(Entry { record, size: record.payload@.len() as usize }),
                max_records as int,
                max_bytes as int,
            ),
            final(self).evicted == evicted_after(
                old(self).buffer@.push(Entry { record, size: record.payload@.len() as usize }),
                final(self).buffer@,
                old(self).evicted,
            ),
            final(self).same_identity(old(self)),
            final(self).epoch == old(self).epoch,
            final(self).attached == old(self).attached,
            final(self).blocked == old(self).blocked,
            final(self).received == old(self).received,
            final(self).uncommitted_key == old(self).uncommitted_key,
    {
        let size = record.payload.len();
        let ghost pushed = old(self).buffer@.push(Entry { record, size });
        proof {
            lemma_total_size_nonneg(old(self).buffer@);
            assert(pushed.drop_last() =~= old(self).buffer@);
        }
        self.head = record.seq;
        self.bytes = self.bytes + size;
        self.buffer.push_back(Entry { record, size });
        assert(self.buffer@ =~= pushed);
        assert forall|i: int| 0 <= i < self.buffer@.len() implies #[trigger] self.buffer@[i].record.seq
            == self.head - self.buffer@.len() + 1 + i by {
            if i < self.buffer@.len() - 1 {
                assert(self.buffer@[i] == old(self).buffer@[i]);
            }
        }
        assert forall|i: int| 0 <= i < self.buffer@.len() implies (#[trigger] self.buffer@[i]).size
            == self.buffer@[i].record.payload@.len() by {
            if i < self.buffer@.len() - 1 {
                assert(self.buffer@[i] == old(self).buffer@[i]);
            }
        }
        self.trim(max_records, max_bytes);
    }

    /// The first buffered record with key `key`, copied.
    pub fn buffered_key(&self, key: &str) -> (r: Option<Record>)
        ensures
            match find_key(self.buffer@, key@) {
                Some(k) => r matches Some(x) && x@ == k@,
                None => r is None,
            },
    {
        let mut i: usize = 0;
        assert(self.buffer@.skip(0) =~= self.buffer@);
        while i < self.buffer.len()
            invariant
                i <= self.buffer@.len(),
                find_key(self.buffer@, key@) == find_key(self.buffer@.skip(i as int), key@),
            decreases self.buffer@.len() - i,
        {
            let ghost rest = self.buffer@.skip(i as int);
            assert(rest[0] == self.buffer@[i as int]);
            if text_eq(self.buffer[i].record.key.as_str(), key) {
                return Some(self.buffer[i].record.duplicate());
            }
            assert(rest.drop_first() =~= self.buffer@.skip(i + 1));
            i += 1;
        }
        assert(self.buffer@.skip(i as int).len() == 0);
        None
    }
}

impl SavedStream {
    /// Accepts a publication. `found` is what the attached store answered when
    /// asked for `p.key` (`None` when no store is attached), `epochs` are the
    /// parents' epochs and `observed` is the receive time. A known key with the
    /// same content gives back the first record and changes nothing; a new key
    /// is numbered `head + 1` and either buffered or handed out to be written.
    pub fn publish(
        &mut self,
        p: Publish,
        epochs: Vec<(String, String)>,
        found: Option<Result<Option<Record>, String>>,
        observed: u64,
        max_payload: usize,
        max_records: usize,
        max_bytes: usize,
    ) -> (r: Result<Published, Fault>)
        requires
            old(self).wf(),
            old(self).within(max_records as int, max_bytes as int),
            old(self).attached == found.is_some(),
            old(self).head < u64::MAX,
            old(self).received < u64::MAX,
            1 <= max_records,
            max_payload <= max_bytes,
            max_bytes <= 1073741824,
        ensures
            final(self).wf(),
            final(self).within(max_records as int, max_bytes as int),
            final(self).same_identity(old(self)),
            final(self).epoch == old(self).epoch,
            final(self).attached == old(self).attached,
            final(self).blocked == old(self).blocked,
            final(self).uncommitted_key == old(self).uncommitted_key,
            !publish_fits(p, max_payload as int) ==> {
                &&& r matches Err(f) && f.code == FaultCode::Limit
                    && f.message@ == "payload or idempotency key exceeds limit"@
                &&& *final(self) == *old(self)
            },
            publish_fits(p, max_payload as int) ==> match found {
                Some(Err(e)) => {
                    &&& r matches Err(f) && f.code == FaultCode::HistoryUnavailable && f.message@ == e@
                    &&& *final(self) == *old(self)
                },
                _ => match known_record(*old(self), p.key@, found) {
                    Some(k) => {
                        &&& *final(self) == *old(self)
                        &&& same_content(k@, p, text_pairs_view(epochs@)) ==> (r matches Ok(
                            Published::Existing(x),
                        ) && x@ == k@)
                        &&& !same_content(k@, p, text_pairs_view(epochs@)) ==> (r matches Err(f)
                            && f.code == FaultCode::KeyConflict
                            && f.message@ == "same key has different content"@)
                    },
                    None => match old(self).blocked {
                        Some(reason) => {
                            &&& r matches Err(f) && f.code == FaultCode::StorageBlocked && f.message@
                                == reason@
                            &&& *final(self) == *old(self)
                        },
                        None => {
                            &&& final(self).received == old(self).received + 1
                            &&& old(self).attached ==> {
                                &&& r matches Ok(Published::Pending(x)) && x@ == next_record(
                                    *old(self),
                                    p,
                                    text_pairs_view(epochs@),
                                    observed,
                                )
                                &&& final(self).buffer == old(self).buffer
                                &&& final(self).bytes == old(self).bytes
                                &&& final(self).head == old(self).head
                                &&& final(self).evicted == old(self).evicted
                            }
                            &&& !old(self).attached && old(self).saved ==> {
                                &&& r matches Err(f) && f.code == FaultCode::StorageBlocked
                                    && f.message@ == "saved stream storage is unavailable"@
                                &&& final(self).buffer == old(self).buffer
                                &&& final(self).bytes == old(self).bytes
                                &&& final(self).head == old(self).head
                                &&& final(self).evicted == old(self).evicted
                            }
                            &&& !old(self).attached && !old(self).saved ==> {
                                &&& r matches Ok(Published::Buffered(x)) && x@ == next_record(
                                    *old(self),
                                    p,
                                    text_pairs_view(epochs@),
                                    observed,
                                )
                                &&& final(self).head == old(self).head + 1
                                &&& final(self).buffer@.len() > 0
                                &&& final(self).buffer@.last().record@ == next_record(
                                    *old(self),
                                    p,
                                    text_pairs_view(epochs@),
                                    observed,
                                )
                                &&& final(self).buffer@ == retained(
                                    old(self).buffer@.push(final(self).buffer@.last()),
                                    max_records as int,
                                    max_bytes as int,
                                )
                                &&& final(self).evicted == evicted_after(
                                    old(self).buffer@.push(final(self).buffer@.last()),
                                    final(self).buffer@,
                                    old(self).evicted,
                                )
                            }
                        },
                    },
                },
            },
    {
        let key_bytes = p.key.as_str().as_bytes().len();
        if p.payload.len() > max_payload || key_bytes == 0 || key_bytes > MAX_KEY {
            return Err(fault(FaultCode::Limit, "payload or idempotency key exceeds limit"));
        }
        let known = match found {
            Some(Err(e)) => {
                return Err(Fault { code: FaultCode::HistoryUnavailable, message: e });
            },
            Some(Ok(k)) => k,
            None => self.buffered_key(p.key.as_str()),
        };
        if let Some(k) = known {
            if bytes_eq(k.payload.as_slice(), p.payload.as_slice()) && k.source_ts_ns == p.source_ts_ns
                && pairs_eq(&k.upstream, &p.upstream) && text_pairs_eq(&k.upstream_epochs, &epochs) {
                return Ok(Published::Existing(k));
            }
            return Err(fault(FaultCode::KeyConflict, "same key has different content"));
        }
        if let Some(reason) = &self.blocked {
            return Err(Fault { code: FaultCode::StorageBlocked, message: reason.clone() });
        }
        self.received = self.received + 1;
        let record = Record {
            stream: self.id.clone(),
            epoch: self.epoch.clone(),
            seq: self.head + 1,
            key: p.key,
            payload: p.payload,
            source_ts_ns: p.source_ts_ns,
            observed_ts_ns: observed,
            upstream: p.upstream,
            upstream_epochs: epochs,
            source_seq: None,
            channel: None,
        };
        if self.attached {
            return Ok(Published::Pending(record));
        }
        if self.saved {
            return Err(fault(FaultCode::StorageBlocked, "saved stream storage is unavailable"));
        }
        let copy = record.duplicate();
        self.push(record, max_records, max_bytes);
        proof {
            let pushed = old(self).buffer@.push(Entry { record, size: record.payload@.len() as usize });
            lemma_retained(pushed, max_records as int, max_bytes as int);
        }
        Ok(Published::Buffered(copy))
    }

    /// Settles a record handed out by `publish` once the store has tried to
    /// write it: a written record joins the buffer; a failed write blocks the
    /// stream and remembers the key whose outcome is unknown.
    pub fn settle(
        &mut self,
        record: Record,
        written: Result<(), String>,
        max_records: usize,
        max_bytes: usize,
    ) -> (r: Result<Record, Fault>)
        requires
            old(self).wf(),
            old(self).within(max_records as int, max_bytes as int),
            old(self).head < u64::MAX,
            record.seq == old(self).head + 1,
            record.payload@.len() <= max_bytes,
            max_bytes <= 1073741824,
        ensures
            final(self).wf(),
            final(self).within(max_records as int, max_bytes as int),
            final(self).same_identity(old(self)),
            final(self).epoch == old(self).epoch,
            final(self).attached == old(self).attached,
            final(self).received == old(self).received,
            match written {
                Err(e) => {
                    &&& r matches Err(f) && f.message@ == e@ && f.code == (if has_infix(
                        e@,
                        "commit_unknown"@,
                    ) {
                        FaultCode::CommitUnknown
                    } else {
                        FaultCode::StorageBlocked
                    })
                    &&& final(self).blocked matches Some(b) && b@ == e@
                    &&& final(self).uncommitted_key matches Some(k) && k@ == record.key@
                    &&& final(self).buffer == old(self).buffer
                    &&& final(self).bytes == old(self).bytes
                    &&& final(self).head == old(self).head
                    &&& final(self).evicted == old(self).evicted
                },
                Ok(()) => {
                    &&& r matches Ok(x) && x@ == record@
                    &&& final(self).blocked == old(self).blocked
                    &&& final(self).uncommitted_key == old(self).uncommitted_key
                    &&& final(self).head == old(self).head + 1
                    &&& final(self).buffer@ == retained(
                        old(self).buffer@.push(Entry { record, size: record.payload@.len() as usize }),
                        max_records as int,
                        max_bytes as int,
                    )
                    &&& final(self).evicted == evicted_after(
                        old(self).buffer@.push(Entry { record, size: record.payload@.len() as usize }),
                        final(self).buffer@,
                        old(self).evicted,
                    )
                },
            },
    {
        match written {
            Err(e) => {
                let unknown = contains_infix(e.as_str(), "commit_unknown");
                proof {
                    reveal_strlit("commit_unknown");
                }
                self.blocked = Some(e.clone());
                self.uncommitted_key = Some(record.key.clone());
                let code = if unknown {
                    FaultCode::CommitUnknown
                } else {
                    FaultCode::StorageBlocked
                };
                Err(Fault { code, message: e })
            },
            Ok(()) => {
                let copy = record.duplicate();
                self.push(record, max_records, max_bytes);
                Ok(copy)
            },
        }
    }
}

/// Encoded bytes a read answers with beyond its first record.
pub const READ_BUDGET: usize = 524288;

/// Where the records of a read come from.
#[derive(Debug)]
pub enum ReadSource {
    /// Copies of buffered records, at most the read's limit.
    Buffer(Vec<Record>),
    /// The attached store, from `start`, at most the read's limit.
    Store,
    /// Nowhere: the read is at the tail.
    Nothing,
}

/// A read whose cursor and epoch were accepted.
#[derive(Debug)]
pub struct ReadPlan {
    /// The requested first sequence (0 having meant the tail).
    pub from: u64,
    /// The first sequence that can still be given: `from`, or the oldest.
    pub start: u64,
    pub oldest: u64,
    pub head: u64,
    pub limit: usize,
    pub source: ReadSource,
}

/// The records of a read, and the run that could no longer be given.
#[derive(Debug)]
pub struct SavedBatch {
    pub from: u64,
    pub next: u64,
    pub head: u64,
    pub oldest: u64,
    pub records: Vec<Record>,
    /// First and last sequence that were overwritten before they were read.
    pub gap: Option<(u64, u64)>,
}

/// The views of the buffered records.
pub open spec fn buffer_views(b: Seq<Entry>) -> Seq<RecordView> {
    b.map_values(|e: Entry| e.record@)
}

/// The views of a run of records.
pub open spec fn record_views(s: Seq<Record>) -> Seq<RecordView> {
    s.map_values(|r: Record| r@)
}

/// The requested first sequence: 0 stands for the tail, `head + 1`.
pub open spec fn read_from(s: SavedStream, from: u64) -> int {
    if from == 0 {
        s.head + 1
    } else {
        from as int
    }
}

/// Whether a reader's epoch names another incarnation of the stream.
pub open spec fn epoch_differs(s: SavedStream, epoch: Option<&str>) -> bool {
    match epoch {
        Some(e) => e@ != s.epoch@,
        None => false,
    }
}

/// The reason given when history is missing: the store's failure if any.
pub open spec fn blocked_or(s: SavedStream, default: Seq<char>) -> Seq<char> {
    match s.blocked {
        Some(b) => b@,
        None => default,
    }
}

impl ReadPlan {
    /// The relations that `plan_read` establishes between the numbers of a plan.
    pub open spec fn wf(&self) -> bool {
        &&& 1 <= self.oldest <= self.start
        &&& self.from <= self.start
        &&& self.start <= self.head + 1
        &&& self.head < u64::MAX
    }
}

/// The total of the first `n` sizes.
pub open spec fn prefix_total(sizes: Seq<usize>, n: int) -> int
    decreases n,
{
    if n <= 0 {
        0
    } else {
        prefix_total(sizes, n - 1) + sizes[n - 1]
    }
}

/// Whether a read keeps exactly its first `k` candidates: always the first one,
/// then as many as fit in `READ_BUDGET` encoded bytes in all.
pub open spec fn read_cut(sizes: Seq<usize>, k: int) -> bool {
    &&& 0 <= k <= sizes.len()
    &&& sizes.len() > 0 ==> k >= 1
    &&& k > 1 ==> prefix_total(sizes, k) <= READ_BUDGET
    &&& 1 <= k < sizes.len() ==> prefix_total(sizes, k + 1) > READ_BUDGET
}

/// The records a plan reads: its buffered copies, or what the store returned.
pub open spec fn candidates(plan: ReadPlan, stored: Option<Result<Vec<Record>, String>>) -> Seq<Record> {
    match plan.source {
        ReadSource::Buffer(v) => v@,
        ReadSource::Store => match stored {
            Some(Ok(v)) => v@,
            _ => Seq::empty(),
        },
        ReadSource::Nothing => Seq::empty(),
    }
}

impl SavedStream {
    /// Checks a read's cursor and epoch and says where its records come from.
    /// `from` 0 means the tail; a cursor before the oldest retained record
    /// starts at the oldest.
    pub fn plan_read(&self, from: u64, limit: usize, epoch: Option<&str>) -> (r: Result<ReadPlan, Fault>)
        requires
            self.wf(),
            self.head < u64::MAX,
        ensures
            if self.saved && !self.attached {
                r matches Err(f) && f.code == FaultCode::HistoryUnavailable && f.message@ == blocked_or(
                    *self,
                    "saved history is unavailable"@,
                )
            } else if epoch_differs(*self, epoch) {
                r matches Err(f) && f.code == FaultCode::EpochMismatch && f.message@
                    == "cursor belongs to a different stream incarnation"@
            } else if read_from(*self, from) > self.head + 1 {
                r matches Err(f) && f.code == FaultCode::CursorAhead && f.message@ == "head is "@ + decimal(
                    self.head as nat,
                )
            } else {
                r matches Ok(plan) && {
                let start = if read_from(*self, from) < self.spec_oldest() {
                    self.spec_oldest()
                } else {
                    read_from(*self, from)
                };
                &&& plan.wf()
                &&& plan.from == read_from(*self, from)
                &&& plan.oldest == self.spec_oldest()
                &&& plan.start == start
                &&& plan.head == self.head
                &&& plan.limit == limit
                &&& if self.buffer@.len() > 0 && start >= self.buffer@[0].record.seq {
                    let skip = start - self.buffer@[0].record.seq;
                    let end = if skip + limit < self.buffer@.len() {
                        skip + limit
                    } else {
                        self.buffer@.len() as int
                    };
                    plan.source matches ReadSource::Buffer(v) && record_views(v@) == buffer_views(
                        self.buffer@,
                    ).subrange(skip, end)
                } else if self.attached {
                    plan.source is Store
                } else {
                    plan.source is Nothing
                }
                }
            },
    {
        if self.saved && !self.attached {
            let m = match &self.blocked {
                Some(b) => b.clone(),
                None => "saved history is unavailable".to_owned(),
            };
            return Err(Fault { code: FaultCode::HistoryUnavailable, message: m });
        }
        if let Some(e) = epoch {
            if !text_eq(e, self.epoch.as_str()) {
                return Err(fault(FaultCode::EpochMismatch, "cursor belongs to a different stream incarnation"));
            }
        }
        let from = if from == 0 {
            self.head + 1
        } else {
            from
        };
        if from > self.head + 1 {
            let mut m = String::new();
            append_str(&mut m, "head is ");
            append_decimal(&mut m, self.head);
            proof {
                reveal_strlit("head is ");
            }
            return Err(Fault { code: FaultCode::CursorAhead, message: m });
        }
        let oldest = self.oldest();
        let start = if from < oldest {
            oldest
        } else {
            from
        };
        proof {
            if self.buffer@.len() > 0 {
                assert(self.buffer@[0].record.seq == self.head - self.buffer@.len() + 1);
            }
        }
        let source = if self.buffer.len() > 0 && start >= self.buffer[0].record.seq {
            let first = self.buffer[0].record.seq;
            let skip = (start - first) as usize;
            let mut v: Vec<Record> = Vec::new();
            let mut i = skip;
            while i < self.buffer.len() && v.len() < limit
                invariant
                    skip <= i <= self.buffer@.len(),
                    v@.len() == i - skip,
                    v@.len() <= limit,
                    record_views(v@) == buffer_views(self.buffer@).subrange(skip as int, i as int),
                decreases self.buffer@.len() - i,
            {
                let ghost before = v@;
                v.push(self.buffer[i].record.duplicate());
                assert(record_views(v@) =~= record_views(before).push(self.buffer@[i as int].record@));
                assert(buffer_views(self.buffer@).subrange(skip as int, i + 1) =~= buffer_views(
                    self.buffer@,
                ).subrange(skip as int, i as int).push(self.buffer@[i as int].record@));
                i += 1;
            }
            ReadSource::Buffer(v)
        } else if self.attached {
            ReadSource::Store
        } else if self.saved && from <= self.head {
            let m = match &self.blocked {
                Some(b) => b.clone(),
                None => "storage unavailable".to_owned(),
            };
            return Err(Fault { code: FaultCode::HistoryUnavailable, message: m });
        } else {
            ReadSource::Nothing
        };
        Ok(ReadPlan { from, start, oldest, head: self.head, limit, source })
    }
}

/// Whether the first `k` candidates hold the consecutive sequences from `start`.
pub open spec fn runs_from(c: Seq<Record>, start: int, k: int) -> bool {
    forall|i: int| 0 <= i < k ==> #[trigger] c[i].seq == start + i
}

/// The answer to a planned read: `stored` is what the store returned when the
/// plan reads from it (`None` otherwise) and `sizes` the encoded size of each
/// candidate record. The answer keeps the first record and then as many as fit
/// in the read budget, and refuses a run with a hole or a missing record.
pub fn finish_read(plan: ReadPlan, stored: Option<Result<Vec<Record>, String>>, sizes: &Vec<usize>) -> (r: Result<
    SavedBatch,
    Fault,
>)
    requires
        plan.wf(),
        (plan.source is Store) == stored.is_some(),
        !(stored matches Some(Err(_))) ==> sizes@.len() == candidates(plan, stored).len(),
        forall|i: int| 0 <= i < candidates(plan, stored).len() ==> #[trigger] candidates(plan, stored)[i].seq < u64::MAX,
    ensures
        match stored {
            Some(Err(e)) => r matches Err(f) && f.code == FaultCode::HistoryUnavailable && f.message@ == e@,
            _ => {
                let c = candidates(plan, stored);
                exists|k: int| {
                    &&& #[trigger] read_cut(sizes@, k)
                    &&& if !runs_from(c, plan.start as int, k) {
                        exists|i: int| {
                            &&& 0 <= i < k
                            &&& #[trigger] c[i].seq != plan.start + i
                            &&& runs_from(c, plan.start as int, i)
                            &&& r matches Err(f) && f.code == FaultCode::HistoryGap && f.message@ == "expected "@
                                + decimal((plan.start + i) as nat) + ", found "@ + decimal(c[i].seq as nat)
                        }
                    } else if plan.start <= plan.head && k == 0 {
                        r matches Err(f) && f.code == FaultCode::HistoryUnavailable && f.message@
                            == "record within known head is missing"@
                    } else {
                        r matches Ok(b) && {
                            &&& record_views(b.records@) == record_views(c.take(k))
                            &&& b.from == plan.from
                            &&& b.head == plan.head
                            &&& b.oldest == plan.oldest
                            &&& b.next == plan.start + k
                            &&& b.gap == (if plan.from < plan.oldest {
                                Some((plan.from, (plan.oldest - 1) as u64))
                            } else {
                                None
                            })
                        }
                    }
                }
            },
        },
{
    let ghost c = candidates(plan, stored);
    let ghost answered = !(stored matches Some(Err(_)));
    let mut records = match plan.source {
        ReadSource::Buffer(v) => v,
        ReadSource::Store => match stored {
            Some(Ok(v)) => v,
            Some(Err(e)) => {
                return Err(Fault { code: FaultCode::HistoryUnavailable, message: e });
            },
            None => Vec::new(),
        },
        ReadSource::Nothing => Vec::new(),
    };
    assert(records@ == c);
    assert(answered);
    let n = records.len();
    let mut k: usize = 0;
    let mut bytes: usize = 0;
    while k < n
        invariant
            n == sizes@.len(),
            k <= n,
            bytes == prefix_total(sizes@, k as int),
            k > 1 ==> bytes <= READ_BUDGET,
        ensures
            read_cut(sizes@, k as int),
            bytes == prefix_total(sizes@, k as int),
        decreases n - k,
    {
        let size = sizes[k];
        if k > 0 && (size > READ_BUDGET || bytes > READ_BUDGET - size) {
            break;
        }
        bytes = bytes + size;
        k += 1;
    }
    let mut i: usize = 0;
    while i < k
        invariant
            k <= n,
            n == records@.len(),
            records@ == c,
            i <= k,
            runs_from(c, plan.start as int, i as int),
            read_cut(sizes@, k as int),
            answered == !(stored matches Some(Err(_))),
            answered,
            c == candidates(plan, stored),
            plan.wf(),
            forall|j: int| 0 <= j < c.len() ==> #[trigger] c[j].seq < u64::MAX,
        decreases k - i,
    {
        let seq = records[i].seq;
        if seq < plan.start || seq - plan.start != i as u64 {
            proof {
                if i > 0 {
                    assert(c[i - 1].seq == plan.start + (i - 1));
                }
            }
            let expected = plan.start + i as u64;
            let mut m = String::new();
            append_str(&mut m, "expected ");
            append_decimal(&mut m, expected);
            append_str(&mut m, ", found ");
            append_decimal(&mut m, seq);
            proof {
                reveal_strlit("expected ");
                reveal_strlit(", found ");
                assert(c[i as int].seq != plan.start + i);
                assert(!runs_from(c, plan.start as int, k as int));
            }
            return Err(Fault { code: FaultCode::HistoryGap, message: m });
        }
        i += 1;
    }
    if plan.start <= plan.head && k == 0 {
        proof {
            assert(read_cut(sizes@, k as int));
        }
        return Err(fault(FaultCode::HistoryUnavailable, "record within known head is missing"));
    }
    let next = if k > 0 {
        records[k - 1].seq + 1
    } else {
        plan.start
    };
    records.truncate(k);
    let gap = if plan.from < plan.oldest {
        Some((plan.from, plan.oldest - 1))
    } else {
        None
    };
    proof {
        assert(read_cut(sizes@, k as int));
        assert(records@ == c.take(k as int));
    }
    Ok(SavedBatch { from: plan.from, next, head: plan.head, oldest: plan.oldest, records, gap })
}

impl SavedStream {
    /// The first half of resuming a saved stream: refuses a stream that keeps
    /// no history and otherwise detaches its store, which must be reopened.
    pub fn detach(&mut self) -> (r: Result<(), Fault>)
        requires
            old(self).wf(),
        ensures
            final(self).wf(),
            !old(self).saved ==> (r matches Err(f) && f.code == FaultCode::NotSaved && f.message@
                == "stream does not use persistence"@) && *final(self) == *old(self),
            old(self).saved ==> r is Ok && *final(self) == (SavedStream { attached: false, ..*old(self) }),
    {
        if !self.saved {
            return Err(fault(FaultCode::NotSaved, "stream does not use persistence"));
        }
        self.attached = false;
        Ok(())
    }

    /// The second half of resuming: `opened` is the reopened store's epoch and
    /// head, or why it could not be opened. A reopened store replaces the
    /// buffer and clears the failure; a failed open keeps the stream blocked.
    pub fn reattach(&mut self, opened: Result<(String, u64), String>) -> (r: Result<(), Fault>)
        requires
            old(self).wf(),
        ensures
            final(self).wf(),
            final(self).same_identity(old(self)),
            final(self).received == old(self).received,
            final(self).evicted == old(self).evicted,
            match opened {
                Ok((epoch, head)) => {
                    &&& r is Ok
                    &&& final(self).epoch == epoch
                    &&& final(self).head == head
                    &&& final(self).attached
                    &&& final(self).buffer@.len() == 0
                    &&& final(self).blocked is None
                    &&& final(self).uncommitted_key is None
                },
                Err(e) => {
                    &&& r matches Err(f) && f.code == FaultCode::StorageBlocked && f.message@ == e@
                    &&& final(self).blocked matches Some(b) && b@ == e@
                    &&& final(self).epoch == old(self).epoch
                    &&& final(self).head == old(self).head
                    &&& final(self).attached == old(self).attached
                    &&& final(self).buffer == old(self).buffer
                    &&& final(self).uncommitted_key == old(self).uncommitted_key
                },
            },
    {
        match opened {
            Ok((epoch, head)) => {
                self.epoch = epoch;
                self.head = head;
                self.attached = true;
                self.buffer = VecDeque::new();
                self.bytes = 0;
                self.blocked = None;
                self.uncommitted_key = None;
                Ok(())
            },
            Err(e) => {
                self.blocked = Some(e.clone());
                Err(Fault { code: FaultCode::StorageBlocked, message: e })
            },
        }
    }
}

/// No buffered record has key `key` exactly when the search finds none.
pub proof fn lemma_find_key_none(s: Seq<Entry>, key: Seq<char>)
    ensures
        (find_key(s, key) is None) == (forall|i: int| 0 <= i < s.len() ==> (#[trigger] s[i]).record.key@ != key),
    decreases s.len(),
{
    if s.len() > 0 {
        lemma_find_key_none(s.drop_first(), key);
        assert forall|i: int| 1 <= i < s.len() implies (#[trigger] s[i]) == s.drop_first()[i - 1] by {}
        if find_key(s, key) is None {
            assert forall|i: int| 0 <= i < s.len() implies (#[trigger] s[i]).record.key@ != key by {
                if i > 0 {
                    assert(s[i] == s.drop_first()[i - 1]);
                }
            }
        } else if s[0].record.key@ != key {
            let j = choose|j: int| 0 <= j < s.drop_first().len() && (#[trigger] s.drop_first()[j]).record.key@ == key;
            assert(s[j + 1] == s.drop_first()[j]);
        }
    }
}

/// The search over a run that ends in `e` finds `e` when nothing earlier has the key.
pub proof fn lemma_find_key_last(s: Seq<Entry>, key: Seq<char>)
    requires
        s.len() > 0,
        s.last().record.key@ == key,
        forall|i: int| 0 <= i < s.len() - 1 ==> (#[trigger] s[i]).record.key@ != key,
    ensures
        find_key(s, key) == Some(s.last().record),
    decreases s.len(),
{
    if s.len() > 1 {
        let t = s.drop_first();
        assert forall|i: int| 0 <= i < t.len() - 1 implies (#[trigger] t[i]).record.key@ != key by {
            assert(t[i] == s[i + 1]);
        }
        assert(t.last() == s.last());
        lemma_find_key_last(t, key);
        assert(s[0].record.key@ != key);
    }
}

/// Publishing is idempotent: once a publication of `p` has been buffered as the
/// newest record of a stream without a store, the key is known with exactly the
/// content of `p`, so publishing `p` again gives back that first record.
pub proof fn lemma_republish_returns_first(
    s0: SavedStream,
    s1: SavedStream,
    p: Publish,
    epochs: Seq<(Seq<char>, Seq<char>)>,
    observed: u64,
    max_records: int,
    max_bytes: int,
)
    requires
        max_records >= 1,
        find_key(s0.buffer@, p.key@) is None,
        !s1.attached,
        s1.buffer@.len() > 0,
        s1.buffer@.last().size <= max_bytes,
        s1.buffer@.last().record@ == next_record(s0, p, epochs, observed),
        s1.buffer@ == retained(s0.buffer@.push(s1.buffer@.last()), max_records, max_bytes),
    ensures
        known_record(s1, p.key@, None) == Some(s1.buffer@.last().record),
        same_content(s1.buffer@.last().record@, p, epochs),
{
    let e = s1.buffer@.last();
    let pushed = s0.buffer@.push(e);
    lemma_retained(pushed, max_records, max_bytes);
    let r = s1.buffer@;
    lemma_find_key_none(s0.buffer@, p.key@);
    assert(r.last() == pushed.last());
    assert forall|i: int| 0 <= i < r.len() - 1 implies (#[trigger] r[i]).record.key@ != p.key@ by {
        assert(r[i] == pushed[pushed.len() - r.len() + i]);
        assert(pushed[pushed.len() - r.len() + i] == s0.buffer@[pushed.len() - r.len() + i]);
    }
    lemma_find_key_last(r, p.key@);
}

/// The ranges a persistent Core accepts for its buffering limits: a stream
/// buffer always holds at least one largest payload.
pub open spec fn saved_options_in_range(c: CoreOptions) -> bool {
    &&& MAX_PAYLOAD <= c.buffer_bytes <= 1073741824
    &&& 1 <= c.buffer_records <= 1000000
    &&& 1 <= c.max_payload_bytes <= MAX_PAYLOAD
    &&& 1 <= c.read_batch_records <= 64
    &&& 1 <= c.queue_records <= 1024
}

/// Refuses buffering limits outside their ranges.
pub fn check_saved_options(c: &CoreOptions) -> (r: Result<(), Fault>)
    ensures
        saved_options_in_range(*c) ==> r is Ok,
        !saved_options_in_range(*c) ==> (r matches Err(f) && f.code == FaultCode::InvalidRequest && f.message@
            == "Core limits out of range"@),
{
    if c.buffer_bytes < MAX_PAYLOAD || c.buffer_bytes > 1073741824 || c.buffer_records == 0
        || c.buffer_records > 1000000 || c.max_payload_bytes == 0 || c.max_payload_bytes > MAX_PAYLOAD
        || c.read_batch_records == 0 || c.read_batch_records > 64 || c.queue_records == 0
        || c.queue_records > 1024 {
        return Err(fault(FaultCode::InvalidRequest, "Core limits out of range"));
    }
    Ok(())
}

/// The options after applying `patch` in order: only the buffer sizes and the
/// read batch may change at run time; any other key needs a restart, and every
/// value must be a non-negative integer.
pub open spec fn patched(c: CoreOptions, patch: Seq<(String, Option<u64>)>) -> Result<CoreOptions, (FaultCode, Seq<char>)>
    decreases patch.len(),
{
    if patch.len() == 0 {
        Ok(c)
    } else {
        let key = patch[0].0@;
        match patch[0].1 {
            None => Err((FaultCode::InvalidRequest, "positive integer required"@)),
            Some(n) => if key == "buffer_bytes"@ {
                patched(CoreOptions { buffer_bytes: n as usize, ..c }, patch.drop_first())
            } else if key == "buffer_records"@ {
                patched(CoreOptions { buffer_records: n as usize, ..c }, patch.drop_first())
            } else if key == "read_batch_records"@ {
                patched(CoreOptions { read_batch_records: n as usize, ..c }, patch.drop_first())
            } else {
                Err((FaultCode::RestartRequired, key + " requires configuration file and restart"@))
            },
        }
    }
}

/// Applies a run-time patch of the buffering options: each key with its value,
/// when the value is an integer. The patched options must stay in range.
pub fn patch_options(current: CoreOptions, patch: &Vec<(String, Option<u64>)>) -> (r: Result<CoreOptions, Fault>)
    ensures
        match patched(current, patch@) {
            Err((code, m)) => r matches Err(f) && f.code == code && f.message@ == m,
            Ok(c) => if saved_options_in_range(c) {
                r == Ok::<CoreOptions, Fault>(c)
            } else {
                r matches Err(f) && f.code == FaultCode::InvalidRequest && f.message@ == "Core limits out of range"@
            },
        },
{
    let mut c = current;
    let mut i: usize = 0;
    proof {
        reveal_strlit("buffer_bytes");
        reveal_strlit("buffer_records");
        reveal_strlit("read_batch_records");
        assert(patch@.skip(0) =~= patch@);
    }
    while i < patch.len()
        invariant
            i <= patch@.len(),
            patched(current, patch@) == patched(c, patch@.skip(i as int)),
        decreases patch@.len() - i,
    {
        let ghost rest = patch@.skip(i as int);
        assert(rest[0] == patch@[i as int]);
        assert(rest.drop_first() =~= patch@.skip(i + 1));
        let key = patch[i].0.as_str();
        let n = match patch[i].1 {
            None => {
                return Err(fault(FaultCode::InvalidRequest, "positive integer required"));
            },
            Some(n) => n,
        };
        if text_eq(key, "buffer_bytes") {
            c = CoreOptions { buffer_bytes: n as usize, ..c };
        } else if text_eq(key, "buffer_records") {
            c = CoreOptions { buffer_records: n as usize, ..c };
        } else if text_eq(key, "read_batch_records") {
            c = CoreOptions { read_batch_records: n as usize, ..c };
        } else {
            let mut m = String::new();
            append_str(&mut m, key);
            append_str(&mut m, " requires configuration file and restart");
            proof {
                reveal_strlit(" requires configuration file and restart");
            }
            return Err(Fault { code: FaultCode::RestartRequired, message: m });
        }
        i += 1;
    }
    assert(patch@.skip(i as int).len() == 0);
    check_saved_options(&c)?;
    Ok(c)
}

/// The first entry of `t` with stream id `id`.
pub open spec fn table_find(t: Seq<(String, String, u64)>, id: Seq<char>) -> Option<int> {
    if exists|k: int| 0 <= k < t.len() && (#[trigger] t[k]).0@ == id {
        Some(choose|k: int| 0 <= k < t.len() && (#[trigger] t[k]).0@ == id && forall|j: int| 0 <= j < k ==> t[j].0@ != id)
    } else {
        None
    }
}

/// Whether each reference of `up` was found at the given position of `t`.
#[verifier::opaque]
pub open spec fn located(t: Seq<(String, String, u64)>, up: Seq<(String, u64)>, at: Seq<usize>) -> bool {
    &&& at.len() == up.len()
    &&& forall|j: int| 0 <= j < up.len() ==> table_find(t, (#[trigger] up[j]).0@) == Some(at[j] as int)
}

/// Whether a reference reaches no further than the head of the stream at `k` of `t`.
pub open spec fn fits_parent(u: (String, u64), t: Seq<(String, String, u64)>, k: usize) -> bool {
    !(u.1 == 0 || u.1 > t[k as int].2)
}

/// Whether `upstream` refers to stream `id`.
pub open spec fn refers_to(upstream: Seq<(String, u64)>, id: Seq<char>) -> bool {
    exists|u: int| 0 <= u < upstream.len() && #[trigger] upstream[u].0@ == id
}

/// Whether `upstream` names every declared parent and nothing else.
pub open spec fn names_exactly(upstream: Seq<(String, u64)>, parents: Seq<String>) -> bool {
    &&& upstream.len() == parents.len()
    &&& forall|p: int| 0 <= p < parents.len() ==> refers_to(upstream, (#[trigger] parents[p])@)
}

/// The parent epochs a derived record carries. Only the stream's owner may
/// publish; the record must refer to exactly the declared parents; every
/// parent must be a known stream (`streams` lists each stream's id, epoch and
/// head), and only then must every referenced sequence be one the parent has
/// reached.
pub fn parent_epochs(
    plugin: &str,
    owner: &str,
    parents: &Vec<String>,
    upstream: &Vec<(String, u64)>,
    streams: &Vec<(String, String, u64)>,
) -> (r: Result<Vec<(String, String)>, Fault>)
    ensures
        plugin@ != owner@ ==> (r matches Err(f) && f.code == FaultCode::PermissionDenied && f.message@
            == "only stream owner may publish"@),
        plugin@ == owner@ && !names_exactly(upstream@, parents@) ==> (r matches Err(f) && f.code
            == FaultCode::InvalidParents && f.message@ == "upstream must include exactly declared parents"@),
        plugin@ == owner@ && names_exactly(upstream@, parents@) ==> {
            let up = upstream@;
            let t = streams@;
            if exists|i: int| 0 <= i < up.len() && table_find(t, (#[trigger] up[i]).0@) is None {
                exists|i: int| {
                    &&& 0 <= i < up.len()
                    &&& table_find(t, (#[trigger] up[i]).0@) is None
                    &&& forall|j: int| 0 <= j < i ==> table_find(t, up[j].0@) is Some
                    &&& r matches Err(f) && f.code == FaultCode::UnknownStream && f.message@ == up[i].0@
                }
            } else if exists|i: int| 0 <= i < up.len() && (up[i].1 == 0 || up[i].1 > t[table_find(t, (#[trigger] up[i]).0@)->0].2) {
                exists|i: int| {
                    &&& 0 <= i < up.len()
                    &&& (up[i].1 == 0 || up[i].1 > t[table_find(t, (#[trigger] up[i]).0@)->0].2)
                    &&& forall|j: int| 0 <= j < i ==> !(up[j].1 == 0 || up[j].1 > t[table_find(t, up[j].0@)->0].2)
                    &&& r matches Err(f) && f.code == FaultCode::InvalidParentCursor && f.message@ == up[i].0@
                }
            } else {
                r matches Ok(e) && e@.len() == up.len() && forall|i: int| 0 <= i < up.len() ==> {
                    &&& (#[trigger] e@[i]).0@ == up[i].0@
                    &&& e@[i].1@ == t[table_find(t, up[i].0@)->0].1@
                }
            }
        },
{
    if !text_eq(plugin, owner) {
        return Err(fault(FaultCode::PermissionDenied, "only stream owner may publish"));
    }
    let mut exact = upstream.len() == parents.len();
    let mut p: usize = 0;
    while exact && p < parents.len()
        invariant
            p <= parents@.len(),
            exact ==> upstream@.len() == parents@.len(),
            exact ==> forall|q: int| 0 <= q < p ==> refers_to(upstream@, (#[trigger] parents@[q])@),
            !exact ==> !names_exactly(upstream@, parents@),
        decreases parents@.len() - p + (if exact { 1int } else { 0int }),
    {
        let mut found = false;
        let mut u: usize = 0;
        while u < upstream.len() && !found
            invariant
                u <= upstream@.len(),
                p < parents@.len(),
                found ==> refers_to(upstream@, parents@[p as int]@),
                !found ==> forall|w: int| 0 <= w < u ==> #[trigger] upstream@[w].0@ != parents@[p as int]@,
            decreases upstream@.len() - u,
        {
            if text_eq(upstream[u].0.as_str(), parents[p].as_str()) {
                assert(upstream@[u as int].0@ == parents@[p as int]@);
                found = true;
            }
            u += 1;
        }
        if !found {
            proof {
                if names_exactly(upstream@, parents@) {
                    let q = p as int;
                    assert(refers_to(upstream@, parents@[q]@));
                }
            }
            exact = false;
        } else {
            p += 1;
        }
    }
    proof {
        if exact {
            assert forall|q: int| 0 <= q < parents@.len() implies refers_to(upstream@, (#[trigger] parents@[q])@) by {
                assert(q < p);
            }
            assert(names_exactly(upstream@, parents@));
        }
    }
    if !exact {
        return Err(fault(FaultCode::InvalidParents, "upstream must include exactly declared parents"));
    }
    let ghost up = upstream@;
    let ghost t = streams@;
    let mut found_at: Vec<usize> = Vec::new();
    let mut i: usize = 0;
    while i < upstream.len()
        invariant
            i <= up.len(),
            up == upstream@,
            t == streams@,
            plugin@ == owner@,
            names_exactly(up, parents@),
            found_at@.len() == i,
            forall|j: int| 0 <= j < i ==> table_find(t, up[j].0@) == Some(#[trigger] found_at@[j] as int),
            forall|j: int| 0 <= j < i ==> #[trigger] found_at@[j] < t.len(),
        decreases up.len() - i,
    {
        let id = upstream[i].0.as_str();
        let mut k: usize = 0;
        while k < streams.len() && !text_eq(streams[k].0.as_str(), id)
            invariant
                k <= t.len(),
                t == streams@,
                forall|j: int| 0 <= j < k ==> #[trigger] t[j].0@ != id@,
            decreases t.len() - k,
        {
            k += 1;
        }
        if k == streams.len() {
            proof {
                assert(table_find(t, up[i as int].0@) is None);
                assert forall|j: int| 0 <= j < i implies table_find(t, up[j].0@) is Some by {
                    assert(table_find(t, up[j].0@) == Some(found_at@[j] as int));
                }
            }
            return Err(Fault { code: FaultCode::UnknownStream, message: upstream[i].0.clone() });
        }
        proof {
            assert(t[k as int].0@ == id@);
            assert(table_find(t, id@) == Some(k as int));
        }
        found_at.push(k);
        i += 1;
    }
    let mut epochs: Vec<(String, String)> = Vec::new();
    let mut i: usize = 0;
    proof {
        reveal(located);
        assert(located(t, up, found_at@));
    }
    while i < upstream.len()
        invariant
            i <= up.len(),
            up == upstream@,
            t == streams@,
            plugin@ == owner@,
            names_exactly(up, parents@),
            located(t, up, found_at@),
            found_at@.len() == up.len(),
            forall|j: int| 0 <= j < up.len() ==> #[trigger] found_at@[j] < t.len(),
            forall|j: int| 0 <= j < i ==> fits_parent(#[trigger] up[j], t, found_at@[j]),
            epochs@.len() == i,
            forall|j: int| 0 <= j < i ==> {
                &&& (#[trigger] epochs@[j]).0@ == up[j].0@
                &&& epochs@[j].1@ == t[found_at@[j] as int].1@
            },
        decreases up.len() - i,
    {
        let k = found_at[i];
        let seq = upstream[i].1;
        if seq == 0 || seq > streams[k].2 {
            proof {
                reveal(located);
                assert(table_find(t, up[i as int].0@) == Some(found_at@[i as int] as int));
                assert forall|j: int| 0 <= j < up.len() implies table_find(t, (#[trigger] up[j]).0@) is Some by {
                    assert(table_find(t, up[j].0@) == Some(found_at@[j] as int));
                }
                assert forall|j: int| 0 <= j < i implies !(up[j].1 == 0 || up[j].1 > t[table_find(
                    t,
                    up[j].0@,
                )->0].2) by {
                    assert(table_find(t, up[j].0@) == Some(found_at@[j] as int));
                }
            }
            return Err(Fault { code: FaultCode::InvalidParentCursor, message: upstream[i].0.clone() });
        }
        epochs.push((upstream[i].0.clone(), streams[k].1.clone()));
        i += 1;
    }
    proof {
        reveal(located);
        assert forall|j: int| 0 <= j < up.len() implies table_find(t, (#[trigger] up[j]).0@) is Some by {
            assert(table_find(t, up[j].0@) == Some(found_at@[j] as int));
        }
        assert forall|j: int| 0 <= j < up.len() implies !(up[j].1 == 0 || up[j].1 > t[table_find(
            t,
            (#[trigger] up[j]).0@,
        )->0].2) && epochs@[j].1@ == t[table_find(t, up[j].0@)->0].1@ by {
            assert(table_find(t, up[j].0@) == Some(found_at@[j] as int));
        }
    }
    Ok(epochs)
}

} // verus!
