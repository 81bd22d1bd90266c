//! Bounded per-channel reordering by source sequence.
//!
//! Records of one (stream, epoch, channel) are released in source-sequence order.
//! Out-of-order records wait in a bounded buffer; under pressure, or after the
//! delay window, the channel holding the oldest waiting record skips its gap.
use vstd::prelude::*;
use crate::record::{Record, RecordView, opt_text};
use crate::order::{bytes_lt, bytes_less};
use crate::limits::MAX_PAYLOAD;
use vstd::utf8::encode_utf8;
use crate::text::{decimal_bytes, lemma_encode_injective};

verus! {

/// Reordering and decoration options of a transform plugin.
#[derive(Clone, Debug)]
pub struct Config {
    pub streams: Vec<String>,
    pub output_stream: String,
    pub number: bool,
    pub timestamp: bool,
    pub reorder: bool,
    pub max_records: usize,
    pub max_bytes: usize,
    pub max_delay_ms: u64,
    pub max_channels: usize,
}

/// Why a transform configuration is refused.
#[derive(Clone, Copy, Debug, PartialEq, Eq)]
pub enum ConfigError {
    EmptyStreamName,
    InvalidLimits,
}

impl ConfigError {
    pub fn message(&self) -> (s: &'static str)
        ensures
            s@ == match self {
                ConfigError::EmptyStreamName => "stream names must not be empty"@,
                ConfigError::InvalidLimits => "invalid bounded reorder limits"@,
            },
    {
        match self {
            ConfigError::EmptyStreamName => "stream names must not be empty",
            ConfigError::InvalidLimits => "invalid bounded reorder limits",
        }
    }
}

impl Default for Config {
    /// No streams, no decoration, no reordering; 128 records, 4 MiB, 100 ms, 128 channels.
    fn default() -> (c: Config)
        ensures
            c.streams@.len() == 0,
            c.output_stream@.len() == 0,
            !c.number,
            !c.timestamp,
            !c.reorder,
            c.max_records == 128,
            c.max_bytes == 4194304,
            c.max_delay_ms == 100,
            c.max_channels == 128,
    {
        Config {
            streams: Vec::new(),
            output_stream: String::new(),
            number: false,
            timestamp: false,
            reorder: false,
            max_records: 128,
            max_bytes: 4194304,
            max_delay_ms: 100,
            max_channels: 128,
        }
    }
}

impl Config {
    pub open spec fn limits_ok(&self) -> bool {
        &&& 1 <= self.max_records <= 4096
        &&& MAX_PAYLOAD <= self.max_bytes <= 67108864
        &&& 1 <= self.max_delay_ms <= 60000
        &&& 1 <= self.max_channels <= 4096
    }

    /// Stream names must be nonempty and every limit in range.
    pub fn validate(&self) -> (r: Result<(), ConfigError>)
        ensures
            r == (if exists|i: int| 0 <= i < self.streams@.len() && #[trigger] self.streams@[i]@.len() == 0 {
                Err(ConfigError::EmptyStreamName)
            } else if !self.limits_ok() {
                Err(ConfigError::InvalidLimits)
            } else {
                Ok(())
            }),
    {
        let mut i: usize = 0;
        while i < self.streams.len()
            invariant
                i <= self.streams@.len(),
                forall|j: int| 0 <= j < i ==> #[trigger] self.streams@[j]@.len() != 0,
            decreases self.streams.len() - i,
        {
            if self.streams[i].as_str().is_empty() {
                return Err(ConfigError::EmptyStreamName);
            }
            i += 1;
        }
        if !(1 <= self.max_records && self.max_records <= 4096)
            || !(MAX_PAYLOAD <= self.max_bytes && self.max_bytes <= 67108864)
            || !(1 <= self.max_delay_ms && self.max_delay_ms <= 60000)
            || !(1 <= self.max_channels && self.max_channels <= 4096)
        {
            return Err(ConfigError::InvalidLimits);
        }
        Ok(())
    }
}

/// A record waiting for its predecessors.
pub struct Queued {
    pub seq: u64,
    pub record: Record,
    pub received: u64,
    pub bytes: usize,
}

/// Per-channel state: the next expected source sequence and the waiting records.
pub struct ChannelState {
    pub stream: String,
    pub epoch: String,
    pub channel: Option<String>,
    pub next: u64,
    pub pending: Vec<Queued>,
}

/// Local diagnostics. They do not imply that skipped records can be recovered.
#[derive(Clone, Copy, Debug, Default)]
pub struct Stats {
    pub duplicates: u64,
    pub skipped: u64,
    pub missing_source_seq: u64,
}

pub struct QueuedView {
    pub seq: u64,
    pub record: RecordView,
    pub received: u64,
    pub bytes: int,
}

pub struct KeyView {
    pub stream: Seq<char>,
    pub epoch: Seq<char>,
    pub channel: Option<Seq<char>>,
}

pub struct ChannelView {
    pub key: KeyView,
    pub next: u64,
    pub pending: Seq<QueuedView>,
}

impl View for Queued {
    type V = QueuedView;

    open spec fn view(&self) -> QueuedView {
        QueuedView { seq: self.seq, record: self.record@, received: self.received, bytes: self.bytes as int }
    }
}

impl View for ChannelState {
    type V = ChannelView;

    open spec fn view(&self) -> ChannelView {
        ChannelView {
            key: KeyView { stream: self.stream@, epoch: self.epoch@, channel: opt_text(self.channel) },
            next: self.next,
            pending: self.pending@.map_values(|q: Queued| q@),
        }
    }
}

/// Optional text sorts with absence first.
pub open spec fn opt_lt(a: Option<Seq<char>>, b: Option<Seq<char>>) -> bool {
    match (a, b) {
        (None, Some(_)) => true,
        (Some(x), Some(y)) => bytes_lt(encode_utf8(x), encode_utf8(y)),
        _ => false,
    }
}

/// The order of channel keys: stream, then epoch, then channel.
pub open spec fn key_lt(a: KeyView, b: KeyView) -> bool {
    ||| bytes_lt(encode_utf8(a.stream), encode_utf8(b.stream))
    ||| a.stream == b.stream && bytes_lt(encode_utf8(a.epoch), encode_utf8(b.epoch))
    ||| a.stream == b.stream && a.epoch == b.epoch && opt_lt(a.channel, b.channel)
}

/// The waiting records of one channel are in increasing source order, none before
/// `next`, and each belongs to the channel.
pub open spec fn channel_ok(c: ChannelView) -> bool {
    &&& c.next >= 1
    &&& forall|i: int, j: int| 0 <= i < j < c.pending.len() ==> c.pending[i].seq < c.pending[j].seq
    &&& forall|i: int| 0 <= i < c.pending.len() ==> {
        &&& c.next <= (#[trigger] c.pending[i]).seq < u64::MAX
        &&& c.pending[i].record.source_seq == Some(c.pending[i].seq)
        &&& c.pending[i].record.stream == c.key.stream
        &&& c.pending[i].record.epoch == c.key.epoch
        &&& c.pending[i].record.channel == c.key.channel
        &&& c.pending[i].bytes >= 0
    }
}

/// Number of waiting records across channels.
pub open spec fn count(chs: Seq<ChannelView>) -> int
    decreases chs.len(),
{
    if chs.len() == 0 {
        0
    } else {
        count(chs.drop_last()) + chs.last().pending.len()
    }
}

/// Encoded bytes of the waiting records of one channel.
pub open spec fn pending_weight(p: Seq<QueuedView>) -> int
    decreases p.len(),
{
    if p.len() == 0 {
        0
    } else {
        pending_weight(p.drop_last()) + p.last().bytes
    }
}

/// Encoded bytes of waiting records across channels.
pub open spec fn weight(chs: Seq<ChannelView>) -> int
    decreases chs.len(),
{
    if chs.len() == 0 {
        0
    } else {
        weight(chs.drop_last()) + pending_weight(chs.last().pending)
    }
}

/// Length of the run of waiting records numbered `next`, `next + 1`, ...
pub open spec fn run_len(p: Seq<QueuedView>, next: int) -> nat
    decreases p.len(),
{
    if p.len() > 0 && p[0].seq == next {
        1 + run_len(p.drop_first(), next + 1)
    } else {
        0
    }
}

/// Earliest reception time among waiting records.
pub open spec fn min_received(p: Seq<QueuedView>) -> u64
    decreases p.len(),
{
    if p.len() <= 1 {
        if p.len() == 0 { 0 } else { p[0].received }
    } else {
        let m = min_received(p.drop_last());
        if p.last().received < m { p.last().received } else { m }
    }
}

/// Channel `a` holds an older waiting record than `b`; ties go to the smaller key.
pub open spec fn earlier(a: ChannelView, b: ChannelView) -> bool {
    ||| min_received(a.pending) < min_received(b.pending)
    ||| min_received(a.pending) == min_received(b.pending) && key_lt(a.key, b.key)
}

/// Channel `k` holds the oldest waiting record.
pub open spec fn is_oldest(chs: Seq<ChannelView>, k: int) -> bool {
    &&& 0 <= k < chs.len()
    &&& chs[k].pending.len() > 0
    &&& forall|j: int| 0 <= j < chs.len() && j != k && #[trigger] chs[j].pending.len() > 0 ==> earlier(chs[k], chs[j])
}

/// Keys are pairwise distinct.
pub open spec fn keys_distinct(chs: Seq<ChannelView>) -> bool {
    forall|i: int, j: int| 0 <= i < j < chs.len() ==> chs[i].key != chs[j].key
}


pub proof fn lemma_key_lt_asymmetric(a: KeyView, b: KeyView)
    ensures
        !(key_lt(a, b) && key_lt(b, a)),
{
    crate::order::lemma_bytes_lt_asymmetric(encode_utf8(a.stream), encode_utf8(b.stream));
    crate::order::lemma_bytes_lt_asymmetric(encode_utf8(a.epoch), encode_utf8(b.epoch));
    crate::order::lemma_bytes_lt_irreflexive(encode_utf8(a.stream));
    crate::order::lemma_bytes_lt_irreflexive(encode_utf8(a.epoch));
    if let (Some(x), Some(y)) = (a.channel, b.channel) {
        crate::order::lemma_bytes_lt_asymmetric(encode_utf8(x), encode_utf8(y));
    }
}

pub proof fn lemma_key_lt_transitive(a: KeyView, b: KeyView, c: KeyView)
    requires
        key_lt(a, b),
        key_lt(b, c),
    ensures
        key_lt(a, c),
{
    let (sa, sb, sc) = (encode_utf8(a.stream), encode_utf8(b.stream), encode_utf8(c.stream));
    let (ea, eb, ec) = (encode_utf8(a.epoch), encode_utf8(b.epoch), encode_utf8(c.epoch));
    if bytes_lt(sa, sb) && bytes_lt(sb, sc) {
        crate::order::lemma_bytes_lt_transitive(sa, sb, sc);
    }
    if a.stream == b.stream && b.stream == c.stream && bytes_lt(ea, eb) && bytes_lt(eb, ec) {
        crate::order::lemma_bytes_lt_transitive(ea, eb, ec);
    }
    if let (Some(x), Some(y), Some(z)) = (a.channel, b.channel, c.channel) {
        if bytes_lt(encode_utf8(x), encode_utf8(y)) && bytes_lt(encode_utf8(y), encode_utf8(z)) {
            crate::order::lemma_bytes_lt_transitive(encode_utf8(x), encode_utf8(y), encode_utf8(z));
        }
    }
}

pub proof fn lemma_key_lt_total(a: KeyView, b: KeyView)
    requires
        a != b,
    ensures
        key_lt(a, b) || key_lt(b, a),
{
    let (sa, sb) = (encode_utf8(a.stream), encode_utf8(b.stream));
    let (ea, eb) = (encode_utf8(a.epoch), encode_utf8(b.epoch));
    crate::order::lemma_bytes_lt_total(sa, sb);
    crate::order::lemma_bytes_lt_total(ea, eb);
    if sa =~= sb {
        lemma_encode_injective(a.stream, b.stream);
    }
    if ea =~= eb {
        lemma_encode_injective(a.epoch, b.epoch);
    }
    if let (Some(x), Some(y)) = (a.channel, b.channel) {
        crate::order::lemma_bytes_lt_total(encode_utf8(x), encode_utf8(y));
        if encode_utf8(x) =~= encode_utf8(y) {
            lemma_encode_injective(x, y);
        }
    }
}

/// Among channels with waiting records, at most one holds the oldest record.
pub proof fn lemma_oldest_unique(chs: Seq<ChannelView>, k1: int, k2: int)
    requires
        is_oldest(chs, k1),
        is_oldest(chs, k2),
    ensures
        k1 == k2,
{
    if k1 != k2 {
        assert(chs[k2].pending.len() > 0);
        assert(earlier(chs[k1], chs[k2]));
        assert(chs[k1].pending.len() > 0);
        assert(earlier(chs[k2], chs[k1]));
        lemma_key_lt_asymmetric(chs[k1].key, chs[k2].key);
    }
}

/// The channel holding the oldest waiting record, if any record waits.
pub open spec fn oldest_channel(chs: Seq<ChannelView>) -> Option<int> {
    if exists|k: int| is_oldest(chs, k) {
        Some(choose|k: int| is_oldest(chs, k))
    } else {
        None
    }
}

/// The next expected sequence when releasing; forcing skips to the first waiting record.
pub open spec fn release_start(c: ChannelView, force: bool) -> int {
    if force && c.pending.len() > 0 {
        c.pending[0].seq as int
    } else {
        c.next as int
    }
}

/// The channel after releasing its ready run.
pub open spec fn released(c: ChannelView, force: bool) -> ChannelView {
    let start = release_start(c, force);
    let n = run_len(c.pending, start);
    ChannelView { key: c.key, next: (start + n) as u64, pending: c.pending.skip(n as int) }
}

/// The records released, in source order.
pub open spec fn release_out(c: ChannelView, force: bool) -> Seq<RecordView> {
    let n = run_len(c.pending, release_start(c, force));
    c.pending.take(n as int).map_values(|q: QueuedView| q.record)
}

/// How many source sequences a release skips.
pub open spec fn release_skip(c: ChannelView, force: bool) -> int {
    release_start(c, force) - c.next
}

pub open spec fn sat_add(a: u64, b: int) -> u64 {
    if a + b > u64::MAX { u64::MAX } else { (a + b) as u64 }
}

pub proof fn lemma_run_len(p: Seq<QueuedView>, next: int)
    ensures
        run_len(p, next) <= p.len(),
        forall|i: int| 0 <= i < run_len(p, next) ==> #[trigger] p[i].seq == next + i,
        run_len(p, next) < p.len() ==> p[run_len(p, next) as int].seq != next + run_len(p, next),
    decreases p.len(),
{
    if p.len() > 0 && p[0].seq == next {
        lemma_run_len(p.drop_first(), next + 1);
        assert forall|i: int| 0 <= i < run_len(p, next) implies #[trigger] p[i].seq == next + i by {
            if i > 0 {
                assert(p[i] == p.drop_first()[i - 1]);
            }
        }
    }
}

pub proof fn lemma_pending_weight_nonneg(p: Seq<QueuedView>)
    requires
        forall|i: int| 0 <= i < p.len() ==> (#[trigger] p[i]).bytes >= 0,
    ensures
        pending_weight(p) >= 0,
    decreases p.len(),
{
    if p.len() > 0 {
        lemma_pending_weight_nonneg(p.drop_last());
    }
}

pub proof fn lemma_pending_weight_split(p: Seq<QueuedView>, n: int)
    requires
        0 <= n <= p.len(),
    ensures
        pending_weight(p) == pending_weight(p.take(n)) + pending_weight(p.skip(n)),
    decreases p.len(),
{
    if n < p.len() {
        lemma_pending_weight_split(p.drop_last(), n);
        assert(p.drop_last().take(n) =~= p.take(n));
        assert(p.skip(n).drop_last() =~= p.drop_last().skip(n));
        assert(p.skip(n).last() == p.last());
    } else {
        assert(p.take(n) =~= p);
        assert(p.skip(n).len() == 0);
    }
}

pub proof fn lemma_count_update(chs: Seq<ChannelView>, k: int, c: ChannelView)
    requires
        0 <= k < chs.len(),
    ensures
        count(chs.update(k, c)) == count(chs) - chs[k].pending.len() + c.pending.len(),
        weight(chs.update(k, c)) == weight(chs) - pending_weight(chs[k].pending) + pending_weight(c.pending),
    decreases chs.len(),
{
    let u = chs.update(k, c);
    if k < chs.len() - 1 {
        lemma_count_update(chs.drop_last(), k, c);
        assert(u.drop_last() =~= chs.drop_last().update(k, c));
    } else {
        assert(u.drop_last() =~= chs.drop_last());
    }
}

pub proof fn lemma_count_push(chs: Seq<ChannelView>, c: ChannelView)
    ensures
        count(chs.push(c)) == count(chs) + c.pending.len(),
        weight(chs.push(c)) == weight(chs) + pending_weight(c.pending),
{
    assert(chs.push(c).drop_last() =~= chs);
}

pub proof fn lemma_count_bounds(chs: Seq<ChannelView>)
    ensures
        count(chs) >= 0,
        forall|i: int| 0 <= i < chs.len() ==> #[trigger] chs[i].pending.len() <= count(chs),
    decreases chs.len(),
{
    if chs.len() > 0 {
        lemma_count_bounds(chs.drop_last());
        assert(count(chs) == count(chs.drop_last()) + chs.last().pending.len());
        assert forall|i: int| 0 <= i < chs.len() implies #[trigger] chs[i].pending.len() <= count(chs) by {
            if i < chs.len() - 1 {
                assert(chs[i] == chs.drop_last()[i]);
                assert(chs.drop_last()[i].pending.len() <= count(chs.drop_last()));
            }
        }
    }
}

pub proof fn lemma_weight_nonneg(chs: Seq<ChannelView>)
    requires
        forall|i: int| 0 <= i < chs.len() ==> channel_ok(#[trigger] chs[i]),
    ensures
        weight(chs) >= 0,
    decreases chs.len(),
{
    if chs.len() > 0 {
        lemma_weight_nonneg(chs.drop_last());
        assert(channel_ok(chs.last()));
        lemma_pending_weight_nonneg(chs.last().pending);
    }
}

/// Forced release of a channel with waiting records releases at least one record.
pub proof fn lemma_forced_release_progress(c: ChannelView)
    requires
        c.pending.len() > 0,
    ensures
        run_len(c.pending, release_start(c, true)) >= 1,
{
}

/// Release the oldest channel until `need` more bytes and one more record fit.
/// Returns the channels, the skipped counter, the released records and whether
/// room was made.
pub open spec fn relieve(
    chs: Seq<ChannelView>,
    skipped: u64,
    max_records: int,
    max_bytes: int,
    need: int,
) -> (Seq<ChannelView>, u64, Seq<RecordView>, bool)
    decreases count(chs),
{
    if count(chs) >= max_records || weight(chs) + need > max_bytes {
        match oldest_channel(chs) {
            None => (chs, skipped, Seq::empty(), false),
            Some(k) => {
                let c = chs[k];
                let rest = chs.update(k, released(c, true));
                proof {
                    lemma_count_bounds(chs);
                    lemma_count_bounds(rest);
                    lemma_count_update(chs, k, released(c, true));
                    lemma_run_len(c.pending, release_start(c, true));
                }
                let r = relieve(rest, sat_add(skipped, release_skip(c, true)), max_records, max_bytes, need);
                (r.0, r.1, release_out(c, true) + r.2, r.3)
            },
        }
    } else {
        (chs, skipped, Seq::empty(), true)
    }
}


pub proof fn lemma_weight_bounds(chs: Seq<ChannelView>)
    requires
        forall|i: int| 0 <= i < chs.len() ==> channel_ok(#[trigger] chs[i]),
    ensures
        weight(chs) >= 0,
        forall|i: int| 0 <= i < chs.len() ==> #[trigger] pending_weight(chs[i].pending) <= weight(chs),
    decreases chs.len(),
{
    lemma_weight_nonneg(chs);
    if chs.len() > 0 {
        lemma_weight_bounds(chs.drop_last());
        assert(channel_ok(chs.last()));
        lemma_pending_weight_nonneg(chs.last().pending);
        assert(weight(chs) == weight(chs.drop_last()) + pending_weight(chs.last().pending));
        assert forall|i: int| 0 <= i < chs.len() implies #[trigger] pending_weight(chs[i].pending) <= weight(chs) by {
            if i < chs.len() - 1 {
                assert(chs[i] == chs.drop_last()[i]);
                assert(pending_weight(chs.drop_last()[i].pending) <= weight(chs.drop_last()));
            }
        }
    }
}

pub proof fn lemma_take_weight(p: Seq<QueuedView>, n: int)
    requires
        0 <= n < p.len(),
    ensures
        pending_weight(p.take(n + 1)) == pending_weight(p.take(n)) + p[n].bytes,
{
    assert(p.take(n + 1).drop_last() =~= p.take(n));
}

/// A channel with no waiting records and `next` = 1.
pub open spec fn fresh_channel(key: KeyView) -> ChannelView {
    ChannelView { key, next: 1, pending: Seq::empty() }
}

/// The position of the channel with `key`, if one exists.
pub open spec fn find_key(chs: Seq<ChannelView>, key: KeyView) -> Option<int> {
    if exists|i: int| 0 <= i < chs.len() && chs[i].key == key {
        Some(choose|i: int| 0 <= i < chs.len() && chs[i].key == key)
    } else {
        None
    }
}

/// How many waiting records precede source sequence `seq`.
pub open spec fn lower_count(p: Seq<QueuedView>, seq: u64) -> int
    decreases p.len(),
{
    if p.len() > 0 && p[0].seq < seq {
        1 + lower_count(p.drop_first(), seq)
    } else {
        0
    }
}

/// `q` inserted among the waiting records in source order.
pub open spec fn insert_pending(c: ChannelView, q: QueuedView) -> ChannelView {
    let i = lower_count(c.pending, q.seq);
    ChannelView { key: c.key, next: c.next, pending: c.pending.take(i).push(q) + c.pending.skip(i) }
}

/// Why a record cannot be reordered.
#[derive(Clone, Copy, Debug, PartialEq, Eq)]
pub enum ReorderError {
    /// Source sequences must lie in `1..u64::MAX`.
    SourceSequenceOutOfRange,
    /// A new channel would exceed the channel state limit.
    ChannelLimit,
    /// The encoded record alone exceeds the byte budget.
    RecordTooLarge,
    /// No waiting record could be released to make room.
    BudgetAccounting,
    /// A counter would pass `u64::MAX`.
    Exhausted,
    /// The decorated payload exceeds the protocol maximum.
    PayloadTooLarge,
}

/// The abstract state of a processor.
pub struct ReorderState {
    pub channels: Seq<ChannelView>,
    pub stats: Stats,
}

pub open spec fn key_of(r: RecordView) -> KeyView {
    KeyView { stream: r.stream, epoch: r.epoch, channel: r.channel }
}

/// What `feed` does: the next state and the released records, or the refusal.
pub open spec fn feed_result(
    st: ReorderState,
    cfg: Config,
    r: RecordView,
    bytes: int,
    now: u64,
) -> (ReorderState, Result<Seq<RecordView>, ReorderError>) {
    let chs = st.channels;
    let stats = st.stats;
    if !cfg.reorder {
        (st, Ok(seq![r]))
    } else if r.source_seq is None {
        (ReorderState { channels: chs, stats: Stats { missing_source_seq: (stats.missing_source_seq + 1) as u64, ..stats } }, Ok(seq![r]))
    } else {
        let seq = r.source_seq->0;
        let key = key_of(r);
        if seq == 0 || seq == u64::MAX {
            (st, Err(ReorderError::SourceSequenceOutOfRange))
        } else if find_key(chs, key) is None && chs.len() >= cfg.max_channels {
            (st, Err(ReorderError::ChannelLimit))
        } else {
            let fc = feed_channels(chs, r);
            let chs1 = fc.0;
            let k = fc.1;
            let c = chs1[k];
            let dup = Stats { duplicates: (stats.duplicates + 1) as u64, ..stats };
            if seq < c.next || exists|i: int| 0 <= i < c.pending.len() && c.pending[i].seq == seq {
                (ReorderState { channels: chs1, stats: dup }, Ok(Seq::empty()))
            } else if seq == c.next {
                let c2 = ChannelView { next: (seq + 1) as u64, ..c };
                (ReorderState { channels: chs1.update(k, released(c2, false)), stats },
                 Ok(seq![r] + release_out(c2, false)))
            } else if bytes > cfg.max_bytes {
                (ReorderState { channels: chs1, stats }, Err(ReorderError::RecordTooLarge))
            } else {
                let rl = relieve(chs1, stats.skipped, cfg.max_records as int, cfg.max_bytes as int, bytes);
                let chs2 = rl.0;
                let stats2 = Stats { skipped: rl.1, ..stats };
                if !rl.3 {
                    (ReorderState { channels: chs2, stats: stats2 }, Err(ReorderError::BudgetAccounting))
                } else if seq < chs2[k].next {
                    (ReorderState { channels: chs2, stats: Stats { duplicates: (stats.duplicates + 1) as u64, ..stats2 } }, Ok(rl.2))
                } else {
                    let c3 = insert_pending(chs2[k], QueuedView { seq, record: r, received: now, bytes });
                    (ReorderState { channels: chs2.update(k, released(c3, false)), stats: stats2 },
                     Ok(rl.2 + release_out(c3, false)))
                }
            }
        }
    }
}

/// A source reorderer and payload decorator for derived streams.
pub struct Processor {
    config: Config,
    channels: Vec<ChannelState>,
    records: usize,
    bytes: usize,
    pub stats: Stats,
    number: u64,
    source_sequences: Vec<(Option<String>, u64)>,
}

/// Two configurations with the same content.
pub open spec fn same_config(a: Config, b: Config) -> bool {
    &&& a.streams@ == b.streams@
    &&& a.output_stream == b.output_stream
    &&& a.number == b.number
    &&& a.timestamp == b.timestamp
    &&& a.reorder == b.reorder
    &&& a.max_records == b.max_records
    &&& a.max_bytes == b.max_bytes
    &&& a.max_delay_ms == b.max_delay_ms
    &&& a.max_channels == b.max_channels
}

pub open spec fn views(v: Seq<ChannelState>) -> Seq<ChannelView> {
    v.map_values(|c: ChannelState| c@)
}

pub open spec fn record_views(v: Seq<Record>) -> Seq<RecordView> {
    v.map_values(|r: Record| r@)
}

impl Processor {
    pub closed spec fn spec_config(&self) -> Config {
        self.config
    }

    pub closed spec fn spec_channels(&self) -> Seq<ChannelView> {
        views(self.channels@)
    }

    pub closed spec fn spec_number(&self) -> u64 {
        self.number
    }

    /// The processor's counters.
    pub closed spec fn spec_stats(&self) -> Stats {
        self.stats
    }

    /// The processor's counters.
    pub fn stats(&self) -> (s: Stats)
        ensures
            s == self.state().stats,
    {
        self.stats
    }

    /// The processor's channels and counters: its abstract state.
    pub open spec fn state(&self) -> ReorderState {
        ReorderState { channels: self.spec_channels(), stats: self.spec_stats() }
    }

    /// Waiting records and bytes equal the channel contents and stay within the
    /// configured caps; channel keys are distinct and bounded in number.
    pub closed spec fn wf(&self) -> bool {
        let chs = views(self.channels@);
        &&& forall|i: int| 0 <= i < chs.len() ==> channel_ok(#[trigger] chs[i])
        &&& keys_distinct(chs)
        &&& self.records == count(chs)
        &&& self.bytes == weight(chs)
        &&& self.records <= self.config.max_records
        &&& self.bytes <= self.config.max_bytes
        &&& chs.len() <= self.config.max_channels
    }

    /// A processor with no channel state, no waiting records and zero counters.
    pub fn new(config: &Config) -> (p: Processor)
        ensures
            p.wf(),
            same_config(p.spec_config(), *config),
            p.spec_channels().len() == 0,
            p.state().stats == (Stats { duplicates: 0, skipped: 0, missing_source_seq: 0 }),
            p.spec_number() == 0,
            forall|c: Option<Seq<char>>| #[trigger] p.derived(c) == 0,
    {
        let streams = config.streams.clone();
        assert(streams@ =~= config.streams@);
        let p = Processor {
            config: Config {
                streams,
                output_stream: config.output_stream.clone(),
                number: config.number,
                timestamp: config.timestamp,
                reorder: config.reorder,
                max_records: config.max_records,
                max_bytes: config.max_bytes,
                max_delay_ms: config.max_delay_ms,
                max_channels: config.max_channels,
            },
            channels: Vec::new(),
            records: 0,
            bytes: 0,
            stats: Stats { duplicates: 0, skipped: 0, missing_source_seq: 0 },
            number: 0,
            source_sequences: Vec::new(),
        };
        assert(views(p.channels@) =~= Seq::<ChannelView>::empty());
        assert(counter_views(p.source_sequences@) =~= Seq::<(Option<Seq<char>>, u64)>::empty());
        p
    }

    /// A well-formed processor's channels each hold their waiting records in
    /// increasing source order at or above the expected sequence, under
    /// distinct keys: what the ordering laws of `reorder_laws` start from.
    pub proof fn lemma_channels_ok(&self)
        requires
            self.wf(),
        ensures
            forall|i: int| 0 <= i < self.spec_channels().len() ==> channel_ok(#[trigger] self.spec_channels()[i]),
            keys_distinct(self.spec_channels()),
    {
    }

    /// Law: a well-formed processor keeps its waiting records and bytes within
    /// the configured caps, and its channels within the channel limit.
    pub proof fn lemma_within_caps(&self)
        requires
            self.wf(),
        ensures
            count(self.spec_channels()) <= self.spec_config().max_records,
            weight(self.spec_channels()) <= self.spec_config().max_bytes,
            self.spec_channels().len() <= self.spec_config().max_channels,
    {
    }

    /// Waiting records and their encoded bytes.
    pub fn pending(&self) -> (r: (usize, usize))
        requires
            self.wf(),
        ensures
            r.0 == count(self.spec_channels()),
            r.1 == weight(self.spec_channels()),
    {
        (self.records, self.bytes)
    }

    /// Whether channel `a`'s key sorts before channel `b`'s.
    fn key_less(a: &ChannelState, b: &ChannelState) -> (r: bool)
        ensures
            r == key_lt(a@.key, b@.key),
    {
        if bytes_less(a.stream.as_str().as_bytes(), b.stream.as_str().as_bytes()) {
            return true;
        }
        if a.stream != b.stream {
            proof {
                crate::order::lemma_bytes_lt_total(encode_utf8(a.stream@), encode_utf8(b.stream@));
                if encode_utf8(a.stream@) =~= encode_utf8(b.stream@) {
                    lemma_encode_injective(a.stream@, b.stream@);
                }
            }
            return false;
        }
        if bytes_less(a.epoch.as_str().as_bytes(), b.epoch.as_str().as_bytes()) {
            return true;
        }
        if a.epoch != b.epoch {
            proof {
                crate::order::lemma_bytes_lt_total(encode_utf8(a.epoch@), encode_utf8(b.epoch@));
                if encode_utf8(a.epoch@) =~= encode_utf8(b.epoch@) {
                    lemma_encode_injective(a.epoch@, b.epoch@);
                }
                crate::order::lemma_bytes_lt_irreflexive(encode_utf8(a.stream@));
            }
            return false;
        }
        proof {
            crate::order::lemma_bytes_lt_irreflexive(encode_utf8(a.stream@));
            crate::order::lemma_bytes_lt_irreflexive(encode_utf8(a.epoch@));
        }
        match (&a.channel, &b.channel) {
            (None, Some(_)) => true,
            (Some(x), Some(y)) => bytes_less(x.as_str().as_bytes(), y.as_str().as_bytes()),
            _ => false,
        }
    }

    /// Whether channel `c` has the key of `r`.
    fn has_key(c: &ChannelState, r: &Record) -> (b: bool)
        ensures
            b == (c@.key == key_of(r@)),
    {
        if c.stream != r.stream || c.epoch != r.epoch {
            return false;
        }
        match (&c.channel, &r.channel) {
            (None, None) => true,
            (Some(x), Some(y)) => *x == *y,
            _ => false,
        }
    }

    /// The position of the channel of `r`.
    fn find(&self, r: &Record) -> (k: Option<usize>)
        requires
            self.wf(),
        ensures
            match k {
                Some(i) => find_key(self.spec_channels(), key_of(r@)) == Some(i as int),
                None => find_key(self.spec_channels(), key_of(r@)) is None,
            },
    {
        let ghost chs = self.spec_channels();
        let mut i: usize = 0;
        while i < self.channels.len()
            invariant
                self.wf(),
                chs == self.spec_channels(),
                i <= chs.len(),
                forall|j: int| 0 <= j < i ==> #[trigger] chs[j].key != key_of(r@),
            decreases self.channels.len() - i,
        {
            if Self::has_key(&self.channels[i], r) {
                proof {
                    reveal(Processor::wf);
                    let c = choose|j: int| 0 <= j < chs.len() && chs[j].key == key_of(r@);
                    assert(chs[i as int].key == key_of(r@));
                    if c != i {
                        if c < i {
                            assert(chs[c].key != chs[i as int].key);
                        } else {
                            assert(chs[i as int].key != chs[c].key);
                        }
                    }
                }
                return Some(i);
            }
            i += 1;
        }
        None
    }
}

/// Earliest reception time among `p`.
fn earliest(p: &Vec<Queued>) -> (m: u64)
    ensures
        m == min_received(p@.map_values(|q: Queued| q@)),
{
    let ghost v = p@.map_values(|q: Queued| q@);
    if p.len() == 0 {
        return 0;
    }
    let mut m: u64 = p[0].received;
    let mut i: usize = 1;
    assert(v.take(1) =~= seq![v[0]]);
    while i < p.len()
        invariant
            1 <= i <= p@.len(),
            v == p@.map_values(|q: Queued| q@),
            m == min_received(v.take(i as int)),
        decreases p.len() - i,
    {
        assert(v.take(i as int + 1).drop_last() =~= v.take(i as int));
        if p[i].received < m {
            m = p[i].received;
        }
        i += 1;
    }
    assert(v.take(p.len() as int) =~= v);
    m
}


pub proof fn lemma_earlier_transitive(a: ChannelView, b: ChannelView, c: ChannelView)
    requires
        earlier(a, b),
        earlier(b, c),
    ensures
        earlier(a, c),
{
    if min_received(a.pending) == min_received(b.pending) && min_received(b.pending) == min_received(c.pending) {
        lemma_key_lt_transitive(a.key, b.key, c.key);
    }
}

impl Processor {
    /// The channel holding the oldest waiting record; ties go to the smaller key.
    fn oldest(&self) -> (k: Option<usize>)
        requires
            self.wf(),
        ensures
            match k {
                Some(i) => oldest_channel(self.spec_channels()) == Some(i as int) && is_oldest(self.spec_channels(), i as int),
                None => oldest_channel(self.spec_channels()) is None
                    && forall|j: int| 0 <= j < self.spec_channels().len() ==> #[trigger] self.spec_channels()[j].pending.len() == 0,
            },
    {
        let ghost chs = self.spec_channels();
        let mut best: Option<usize> = None;
        let mut best_t: u64 = 0;
        let mut j: usize = 0;
        while j < self.channels.len()
            invariant
                self.wf(),
                chs == self.spec_channels(),
                j <= chs.len(),
                match best {
                    None => forall|i: int| 0 <= i < j ==> #[trigger] chs[i].pending.len() == 0,
                    Some(b) => {
                        &&& b < j
                        &&& chs[b as int].pending.len() > 0
                        &&& best_t == min_received(chs[b as int].pending)
                        &&& forall|i: int| 0 <= i < j && i != b && #[trigger] chs[i].pending.len() > 0 ==> earlier(chs[b as int], chs[i])
                    },
                },
            decreases self.channels.len() - j,
        {
            if self.channels[j].pending.len() > 0 {
                let t = earliest(&self.channels[j].pending);
                assert(chs[j as int].pending == self.channels@[j as int].pending@.map_values(|q: Queued| q@));
                match best {
                    None => {
                        best = Some(j);
                        best_t = t;
                    },
                    Some(b) => {
                        if t < best_t || (t == best_t && Self::key_less(&self.channels[j], &self.channels[b])) {
                            proof {
                                assert forall|i: int| 0 <= i < j + 1 && i != j && #[trigger] chs[i].pending.len() > 0 implies earlier(chs[j as int], chs[i]) by {
                                    if i != b {
                                        lemma_earlier_transitive(chs[j as int], chs[b as int], chs[i]);
                                    }
                                }
                            }
                            best = Some(j);
                            best_t = t;
                        } else {
                            proof {
                                assert(chs[b as int].key != chs[j as int].key);
                                lemma_key_lt_total(chs[b as int].key, chs[j as int].key);
                            }
                        }
                    },
                }
            }
            j += 1;
        }
        match best {
            None => {
                proof {
                    if exists|k: int| is_oldest(chs, k) {
                        let k = choose|k: int| is_oldest(chs, k);
                        assert(chs[k].pending.len() > 0);
                    }
                }
                None
            },
            Some(b) => {
                proof {
                    assert(is_oldest(chs, b as int));
                    let c = choose|k: int| is_oldest(chs, k);
                    lemma_oldest_unique(chs, b as int, c);
                }
                Some(b)
            },
        }
    }
}


/// Releasing keeps a channel well formed and removes exactly the released run.
pub proof fn lemma_released(c: ChannelView, force: bool)
    requires
        channel_ok(c),
    ensures
        channel_ok(released(c, force)),
        released(c, force).key == c.key,
        released(c, force).next >= c.next,
        ({
            let n = run_len(c.pending, release_start(c, force)) as int;
            &&& 0 <= n <= c.pending.len()
            &&& released(c, force).pending == c.pending.skip(n)
            &&& release_out(c, force).len() == n
            &&& pending_weight(c.pending) == pending_weight(c.pending.take(n)) + pending_weight(released(c, force).pending)
            &&& force && c.pending.len() > 0 ==> n >= 1
        }),
        release_skip(c, force) >= 0,
{
    let start = release_start(c, force);
    lemma_run_len(c.pending, start);
    let n = run_len(c.pending, start) as int;
    lemma_pending_weight_split(c.pending, n);
    let r = released(c, force);
    if n > 0 {
        assert(c.pending[n - 1].seq == start + n - 1);
    }
    assert forall|i: int| 0 <= i < r.pending.len() implies {
        &&& r.next <= (#[trigger] r.pending[i]).seq < u64::MAX
    } by {
        assert(r.pending[i] == c.pending[n + i]);
        if n > 0 {
            assert(c.pending[n - 1].seq < c.pending[n + i].seq);
        }
        if i > 0 {
            assert(c.pending[n].seq < c.pending[n + i].seq);
        }
    }
    assert forall|i: int, j: int| 0 <= i < j < r.pending.len() implies r.pending[i].seq < r.pending[j].seq by {
        assert(r.pending[i] == c.pending[n + i]);
        assert(r.pending[j] == c.pending[n + j]);
    }
    if force && c.pending.len() > 0 {
        assert(c.pending[0].seq >= c.next);
    }
}

pub proof fn lemma_release_step(p: Seq<QueuedView>, t: int)
    requires
        0 <= t < p.len(),
        forall|i: int| 0 <= i < p.len() ==> (#[trigger] p[i]).bytes >= 0,
    ensures
        pending_weight(p.take(t + 1)) == pending_weight(p.take(t)) + p[t].bytes,
        pending_weight(p.take(t + 1)) <= pending_weight(p),
{
    lemma_take_weight(p, t);
    lemma_pending_weight_split(p, t + 1);
    assert forall|i: int| 0 <= i < p.skip(t + 1).len() implies (#[trigger] p.skip(t + 1)[i]).bytes >= 0 by {
        assert(p.skip(t + 1)[i] == p[t + 1 + i]);
    }
    lemma_pending_weight_nonneg(p.skip(t + 1));
}

impl Processor {
    /// Releases the ready run of channel `k`; forcing first skips to its oldest
    /// waiting sequence and counts the skipped sequences.
    #[verifier::rlimit(40)]
    #[verifier::spinoff_prover]
    fn release(&mut self, k: usize, force: bool) -> (out: Vec<Record>)
        requires
            old(self).wf(),
            k < old(self).spec_channels().len(),
        ensures
            final(self).wf(),
            final(self).spec_channels() == old(self).spec_channels().update(
                k as int,
                released(old(self).spec_channels()[k as int], force),
            ),
            final(self).stats == (Stats {
                skipped: sat_add(old(self).stats.skipped, release_skip(old(self).spec_channels()[k as int], force)),
                ..old(self).stats
            }),
            record_views(out@) == release_out(old(self).spec_channels()[k as int], force),
            final(self).spec_config() == old(self).spec_config(),
            final(self).spec_number() == old(self).spec_number(),
            final(self).source_sequences == old(self).source_sequences,
    {
        let ghost orig = views(self.channels@);
        let ghost ck = orig[k as int];
        let ghost start = release_start(ck, force);
        let ghost n = run_len(ck.pending, start) as int;
        proof {
            lemma_released(ck, force);
            lemma_run_len(ck.pending, start);
            lemma_count_bounds(orig);
            lemma_weight_bounds(orig);
        }
        let mut c = ChannelState {
            stream: String::new(),
            epoch: String::new(),
            channel: None,
            next: 1,
            pending: Vec::new(),
        };
        let ghost placeholder = c;
        self.channels.set_and_swap(k, &mut c);
        assert(c@ == ck);
        if force && c.pending.len() > 0 {
            let first = c.pending[0].seq;
            assert(c.pending@[0]@ == ck.pending[0]);
            self.stats.skipped = self.stats.skipped.saturating_add(first - c.next);
            c.next = first;
        }
        let mut out: Vec<Record> = Vec::new();
        let ghost t: int = 0;
        let ghost swapped = self.channels@;
        let ghost stats_after = self.stats;
        proof {
            lemma_pending_weight_nonneg(ck.pending);
        }
        assert(ck.pending.skip(0) =~= ck.pending);
        assert(ck.pending.take(0).map_values(|q: QueuedView| q.record) =~= record_views(out@));
        assert(ck.pending.take(0).len() == 0);
        while c.pending.len() > 0 && c.pending[0].seq == c.next
            invariant
                0 <= t <= n,
                n <= ck.pending.len(),
                self.channels@ == swapped,
                k < swapped.len(),
                self.stats == stats_after,
                self.config == old(self).config,
                self.number == old(self).number,
                self.source_sequences == old(self).source_sequences,
                c.stream@ == ck.key.stream,
                c.epoch@ == ck.key.epoch,
                opt_text(c.channel) == ck.key.channel,
                c.pending@.map_values(|q: Queued| q@) == ck.pending.skip(t),
                c.next == start + t,
                self.records == count(orig) - t,
                self.bytes == weight(orig) - pending_weight(ck.pending.take(t)),
                pending_weight(ck.pending.take(t)) <= pending_weight(ck.pending),
                pending_weight(ck.pending) <= weight(orig),
                ck.pending.len() <= count(orig),
                record_views(out@) == ck.pending.take(t).map_values(|q: QueuedView| q.record),
                forall|i: int| 0 <= i < n ==> #[trigger] ck.pending[i].seq == start + i,
                n < ck.pending.len() ==> ck.pending[n].seq != start + n,
                forall|i: int| 0 <= i < ck.pending.len() ==> (#[trigger] ck.pending[i]).seq < u64::MAX && ck.pending[i].bytes >= 0,
            decreases c.pending@.len(),
        {
            assert(c.pending@.map_values(|q: Queued| q@)[0] == c.pending@[0]@);
            assert(ck.pending.skip(t).len() == c.pending@.len());
            assert(ck.pending.skip(t)[0] == ck.pending[t]);
            assert(c.pending@[0]@ == ck.pending[t]);
            proof {
                if t >= n {
                    assert(ck.pending[n].seq == start + n);
                    assert(false);
                }
            }
            let ghost prev = c.pending@;
            let q = c.pending.remove(0);
            proof {
                assert(c.pending@ =~= prev.drop_first());
                assert(c.pending@.map_values(|q: Queued| q@) =~= prev.map_values(|q: Queued| q@).drop_first());
                assert(ck.pending.skip(t).drop_first() =~= ck.pending.skip(t + 1));
                lemma_release_step(ck.pending, t);
            }
            c.next = c.next + 1;
            self.records = self.records - 1;
            self.bytes = self.bytes - q.bytes;
            out.push(q.record);
            proof {
                assert(ck.pending.take(t + 1).map_values(|q: QueuedView| q.record) =~=
                    ck.pending.take(t).map_values(|q: QueuedView| q.record).push(ck.pending[t].record));
                t = t + 1;
            }
            assert(record_views(out@) =~= ck.pending.take(t).map_values(|q: QueuedView| q.record));
        }
        proof {
            if t < n {
                assert(c.pending@.len() > 0);
                assert(ck.pending.skip(t)[0] == ck.pending[t]);
                assert(c.pending@.map_values(|q: Queued| q@)[0] == c.pending@[0]@);
                assert(c.pending@[0]@ == ck.pending[t]);
            }
        }
        assert(t == n);
        self.channels.set_and_swap(k, &mut c);
        proof {
            let newv = views(self.channels@);
            assert(newv =~= orig.update(k as int, released(ck, force)));
            lemma_count_update(orig, k as int, released(ck, force));
            let chs = newv;
            assert forall|i: int| 0 <= i < chs.len() implies channel_ok(#[trigger] chs[i]) by {
                if i != k {
                    assert(chs[i] == orig[i]);
                }
            }
            assert forall|i: int, j: int| 0 <= i < j < chs.len() implies chs[i].key != chs[j].key by {
                assert(chs[i].key == orig[i].key);
                assert(chs[j].key == orig[j].key);
            }
            assert(self.records == count(chs));
            assert(self.bytes == weight(chs));
            assert(self.records <= self.config.max_records);
            assert forall|i: int| 0 <= i < ck.pending.take(n).len() implies (#[trigger] ck.pending.take(n)[i]).bytes >= 0 by {
                assert(ck.pending.take(n)[i] == ck.pending[i]);
            }
            lemma_pending_weight_nonneg(ck.pending.take(n));
            assert(self.bytes <= self.config.max_bytes);
            assert(chs.len() <= self.config.max_channels);
        }
        out
    }
}


pub proof fn lemma_lower_count(p: Seq<QueuedView>, seq: u64, i: int)
    requires
        0 <= i <= p.len(),
        forall|j: int| 0 <= j < i ==> #[trigger] p[j].seq < seq,
        i < p.len() ==> p[i].seq >= seq,
    ensures
        lower_count(p, seq) == i,
    decreases p.len(),
{
    if i > 0 {
        assert forall|j: int| 0 <= j < i - 1 implies #[trigger] p.drop_first()[j].seq < seq by {
            assert(p.drop_first()[j] == p[j + 1]);
        }
        lemma_lower_count(p.drop_first(), seq, i - 1);
    }
}

pub open spec fn result_views(r: Result<Vec<Record>, ReorderError>) -> Result<Seq<RecordView>, ReorderError> {
    match r {
        Ok(v) => Ok(record_views(v@)),
        Err(e) => Err(e),
    }
}

pub proof fn lemma_record_views_append(a: Seq<Record>, b: Seq<Record>)
    ensures
        record_views(a + b) =~= record_views(a) + record_views(b),
{
}

/// Inserting a new waiting record keeps the channel well formed.
#[verifier::spinoff_prover]
pub proof fn lemma_insert_ok(ck: ChannelView, qv: QueuedView, i: int)
    requires
        channel_ok(ck),
        0 <= i <= ck.pending.len(),
        forall|j: int| 0 <= j < i ==> #[trigger] ck.pending[j].seq < qv.seq,
        i < ck.pending.len() ==> ck.pending[i].seq >= qv.seq,
        forall|j: int| 0 <= j < ck.pending.len() ==> #[trigger] ck.pending[j].seq != qv.seq,
        key_of(qv.record) == ck.key,
        qv.record.source_seq == Some(qv.seq),
        ck.next <= qv.seq < u64::MAX,
        qv.bytes >= 0,
    ensures
        channel_ok(insert_pending(ck, qv)),
        insert_pending(ck, qv).pending.len() == ck.pending.len() + 1,
        pending_weight(insert_pending(ck, qv).pending) == pending_weight(ck.pending) + qv.bytes,
        insert_pending(ck, qv).key == ck.key,
{
    lemma_lower_count(ck.pending, qv.seq, i);
    let nc = insert_pending(ck, qv);
    let p = ck.pending;
    let np = nc.pending;
    assert(np =~= p.take(i).push(qv) + p.skip(i));
    assert(np.len() == p.len() + 1);
    // the waiting weight grows by the inserted bytes
    lemma_pending_weight_split(p, i);
    lemma_pending_weight_split(np, i + 1);
    assert(np.take(i + 1).drop_last() =~= p.take(i));
    assert(np.skip(i + 1) =~= p.skip(i));
    assert(channel_ok(nc)) by {
        assert forall|a: int, b: int| 0 <= a < b < np.len() implies np[a].seq < np[b].seq by {
            if a < i && b < i {
                assert(np[a] == p[a] && np[b] == p[b]);
            } else if a < i && b == i {
                assert(np[a] == p[a]);
            } else if a < i {
                assert(np[a] == p[a] && np[b] == p[b - 1]);
            } else if a == i {
                assert(np[b] == p[b - 1]);
                if i < p.len() {
                    assert(p[i].seq >= qv.seq);
                    assert(p[i].seq != qv.seq);
                    if b - 1 > i {
                        assert(p[i].seq < p[b - 1].seq);
                    }
                }
            } else {
                assert(np[a] == p[a - 1] && np[b] == p[b - 1]);
            }
        }
        assert forall|a: int| 0 <= a < np.len() implies {
            &&& nc.next <= (#[trigger] np[a]).seq < u64::MAX
            &&& np[a].record.source_seq == Some(np[a].seq)
            &&& np[a].record.stream == nc.key.stream
            &&& np[a].record.epoch == nc.key.epoch
            &&& np[a].record.channel == nc.key.channel
            &&& np[a].bytes >= 0
        } by {
            if a < i {
                assert(np[a] == p[a]);
            } else if a > i {
                assert(np[a] == p[a - 1]);
            }
        }
    }
}

impl Processor {
    /// Whether channel `k` already holds source sequence `seq`.
    fn waiting(&self, k: usize, seq: u64) -> (b: bool)
        requires
            k < self.channels@.len(),
        ensures
            b == exists|i: int| 0 <= i < self.spec_channels()[k as int].pending.len()
                && self.spec_channels()[k as int].pending[i].seq == seq,
    {
        let ghost p = self.spec_channels()[k as int].pending;
        let mut i: usize = 0;
        while i < self.channels[k].pending.len()
            invariant
                k < self.channels@.len(),
                p == self.spec_channels()[k as int].pending,
                p == self.channels@[k as int].pending@.map_values(|q: Queued| q@),
                i <= p.len(),
                forall|j: int| 0 <= j < i ==> #[trigger] p[j].seq != seq,
            decreases self.channels@[k as int].pending@.len() - i,
        {
            if self.channels[k].pending[i].seq == seq {
                assert(p[i as int].seq == seq);
                return true;
            }
            i += 1;
        }
        false
    }

    /// Moves channel `k`'s expected sequence to `next`.
    fn set_next(&mut self, k: usize, next: u64)
        requires
            old(self).wf(),
            k < old(self).spec_channels().len(),
            next >= 1,
            forall|i: int| 0 <= i < old(self).spec_channels()[k as int].pending.len()
                ==> next <= #[trigger] old(self).spec_channels()[k as int].pending[i].seq,
        ensures
            final(self).wf(),
            final(self).spec_channels() == old(self).spec_channels().update(
                k as int,
                ChannelView { next, ..old(self).spec_channels()[k as int] },
            ),
            final(self).stats == old(self).stats,
            final(self).spec_config() == old(self).spec_config(),
            final(self).spec_number() == old(self).spec_number(),
            final(self).source_sequences == old(self).source_sequences,
    {
        let ghost orig = views(self.channels@);
        let mut c = ChannelState { stream: String::new(), epoch: String::new(), channel: None, next: 1, pending: Vec::new() };
        self.channels.set_and_swap(k, &mut c);
        c.next = next;
        self.channels.set_and_swap(k, &mut c);
        proof {
            let nc = ChannelView { next, ..orig[k as int] };
            let chs = views(self.channels@);
            assert(chs =~= orig.update(k as int, nc));
            lemma_count_update(orig, k as int, nc);
            assert forall|i: int| 0 <= i < chs.len() implies channel_ok(#[trigger] chs[i]) by {
                if i != k {
                    assert(chs[i] == orig[i]);
                }
            }
            assert forall|i: int, j: int| 0 <= i < j < chs.len() implies chs[i].key != chs[j].key by {
                assert(chs[i].key == orig[i].key);
                assert(chs[j].key == orig[j].key);
            }
        }
    }

    /// Adds a fresh channel keyed like `r`; the key must be new.
    fn push_fresh(&mut self, r: &Record)
        requires
            old(self).wf(),
            find_key(old(self).spec_channels(), key_of(r@)) is None,
            old(self).spec_channels().len() < old(self).spec_config().max_channels,
        ensures
            final(self).wf(),
            final(self).spec_channels() == old(self).spec_channels().push(fresh_channel(key_of(r@))),
            final(self).stats == old(self).stats,
            final(self).spec_config() == old(self).spec_config(),
            final(self).spec_number() == old(self).spec_number(),
            final(self).source_sequences == old(self).source_sequences,
    {
        let ghost orig = views(self.channels@);
        let c = ChannelState {
            stream: r.stream.clone(),
            epoch: r.epoch.clone(),
            channel: crate::record::copy_opt_text(&r.channel),
            next: 1,
            pending: Vec::new(),
        };
        assert(c@.pending =~= Seq::<QueuedView>::empty());
        self.channels.push(c);
        proof {
            let chs = views(self.channels@);
            assert(chs =~= orig.push(fresh_channel(key_of(r@))));
            lemma_count_push(orig, fresh_channel(key_of(r@)));
            assert forall|i: int| 0 <= i < chs.len() implies channel_ok(#[trigger] chs[i]) by {
                if i < orig.len() {
                    assert(chs[i] == orig[i]);
                }
            }
            assert forall|i: int, j: int| 0 <= i < j < chs.len() implies chs[i].key != chs[j].key by {
                if j == orig.len() {
                    assert(chs[i] == orig[i]);
                    assert(!(0 <= i < orig.len() && orig[i].key == key_of(r@)));
                } else {
                    assert(chs[i] == orig[i]);
                    assert(chs[j] == orig[j]);
                }
            }
        }
    }

    /// Inserts a waiting record into channel `k` in source order.
    fn insert_waiting(&mut self, k: usize, q: Queued)
        requires
            old(self).wf(),
            k < old(self).spec_channels().len(),
            old(self).records < old(self).spec_config().max_records,
            old(self).bytes + q.bytes <= old(self).spec_config().max_bytes,
            key_of(q.record@) == old(self).spec_channels()[k as int].key,
            q.record.source_seq == Some(q.seq),
            old(self).spec_channels()[k as int].next <= q.seq < u64::MAX,
            forall|i: int| 0 <= i < old(self).spec_channels()[k as int].pending.len()
                ==> #[trigger] old(self).spec_channels()[k as int].pending[i].seq != q.seq,
        ensures
            final(self).wf(),
            final(self).spec_channels() == old(self).spec_channels().update(
                k as int,
                insert_pending(old(self).spec_channels()[k as int], q@),
            ),
            final(self).stats == old(self).stats,
            final(self).spec_config() == old(self).spec_config(),
            final(self).spec_number() == old(self).spec_number(),
            final(self).source_sequences == old(self).source_sequences,
    {
        let ghost orig = views(self.channels@);
        let ghost ck = orig[k as int];
        let ghost qv = q@;
        let mut c = ChannelState { stream: String::new(), epoch: String::new(), channel: None, next: 1, pending: Vec::new() };
        self.channels.set_and_swap(k, &mut c);
        assert(c@ == ck);
        let mut i: usize = 0;
        while i < c.pending.len() && c.pending[i].seq < q.seq
            invariant
                i <= c.pending@.len(),
                c@ == ck,
                forall|j: int| 0 <= j < i ==> #[trigger] ck.pending[j].seq < q.seq,
            decreases c.pending@.len() - i,
        {
            assert(c.pending@[i as int]@ == ck.pending[i as int]);
            i += 1;
        }
        proof {
            if i < c.pending@.len() {
                assert(c.pending@[i as int]@ == ck.pending[i as int]);
            }
            lemma_lower_count(ck.pending, q.seq, i as int);
        }
        let ghost before = c.pending@;
        let ghost qq = q;
        let qb = q.bytes;
        c.pending.insert(i, q);
        let ghost after = c.pending@;
        self.channels.set_and_swap(k, &mut c);
        self.records = self.records + 1;
        self.bytes = self.bytes + qb;
        proof {
            let nc = insert_pending(ck, qv);
            assert(after == before.insert(i as int, qq));
            assert(after.map_values(|q: Queued| q@) =~= before.map_values(|q: Queued| q@).insert(i as int, qv));
            assert(nc.pending =~= before.map_values(|q: Queued| q@).insert(i as int, qv));
            let chs = views(self.channels@);
            assert(chs[k as int].pending =~= nc.pending);
            assert(chs =~= orig.update(k as int, nc));
            lemma_count_update(orig, k as int, nc);
            lemma_insert_ok(ck, qv, i as int);
            assert forall|a: int| 0 <= a < chs.len() implies channel_ok(#[trigger] chs[a]) by {
                if a != k {
                    assert(chs[a] == orig[a]);
                }
            }
            assert forall|a: int, b: int| 0 <= a < b < chs.len() implies chs[a].key != chs[b].key by {
                assert(chs[a].key == orig[a].key);
                assert(chs[b].key == orig[b].key);
            }
        }
    }
}


impl Processor {
    /// Releases records of channels in source order. `bytes` is the encoded size
    /// of `record` and `now` the reception time in nanoseconds.
    ///
    /// Without reordering, or without a source sequence, the record passes
    /// through. A duplicate or late record is dropped and counted. A record that
    /// continues its channel is released with every waiting successor. Any other
    /// record waits; to make room, the channel with the oldest waiting record is
    /// released first, skipping its gap.
    #[verifier::rlimit(60)]
    #[verifier::spinoff_prover]
    pub fn feed(&mut self, record: Record, bytes: usize, now: u64) -> (r: Result<Vec<Record>, ReorderError>)
        requires
            old(self).wf(),
            old(self).state().stats.duplicates < u64::MAX,
            old(self).state().stats.missing_source_seq < u64::MAX,
        ensures
            final(self).wf(),
            final(self).state() == feed_result(old(self).state(), old(self).spec_config(), record@, bytes as int, now).0,
            result_views(r) == feed_result(old(self).state(), old(self).spec_config(), record@, bytes as int, now).1,
            final(self).spec_config() == old(self).spec_config(),
            final(self).spec_number() == old(self).spec_number(),
            forall|c: Option<Seq<char>>| #[trigger] final(self).derived(c) == old(self).derived(c),
    {
        let ghost st = self.state();
        let ghost chs = self.spec_channels();
        let ghost rv = record@;
        if !self.config.reorder {
            let out = vec![record];
            assert(record_views(out@) =~= seq![rv]);
            return Ok(out);
        }
        let seq = match record.source_seq {
            None => {
                self.stats.missing_source_seq = self.stats.missing_source_seq + 1;
                let out = vec![record];
                assert(record_views(out@) =~= seq![rv]);
                return Ok(out);
            },
            Some(s) => s,
        };
        if seq == 0 || seq == u64::MAX {
            return Err(ReorderError::SourceSequenceOutOfRange);
        }
        let k = match self.find(&record) {
            Some(k) => k,
            None => {
                if self.channels.len() >= self.config.max_channels {
                    return Err(ReorderError::ChannelLimit);
                }
                self.push_fresh(&record);
                self.channels.len() - 1
            },
        };
        let ghost chs1 = self.spec_channels();
        proof {
            assert(feed_channels(chs, rv).0 == chs1);
            assert(feed_channels(chs, rv).1 == k as int);
        }
        assert(chs1[k as int] == self.channels@[k as int]@);
        let next = self.channels[k].next;
        if seq < next || self.waiting(k, seq) {
            self.stats.duplicates = self.stats.duplicates + 1;
            let out: Vec<Record> = Vec::new();
            assert(record_views(out@) =~= Seq::<RecordView>::empty());
            assert(self.spec_channels() == chs1);
            proof {
                lemma_feed_duplicate(st, old(self).spec_config(), rv, bytes as int, now);
                let fr = feed_result(st, old(self).spec_config(), rv, bytes as int, now);
                assert(self.state().channels == fr.0.channels);
                assert(self.state().stats == fr.0.stats);
            }
            return Ok(out);
        }
        if seq == next {
            proof {
                reveal(Processor::wf);
                assert(channel_ok(chs1[k as int]));
            }
            self.set_next(k, seq + 1);
            let rest = self.release(k, false);
            let mut out = vec![record];
            let ghost first = out@;
            let mut rest = rest;
            out.append(&mut rest);
            proof {
                lemma_record_views_append(first, rest@);
                assert(record_views(first) =~= seq![rv]);
                let c2 = ChannelView { next: (seq + 1) as u64, ..chs1[k as int] };
                assert(release_skip(c2, false) == 0);
                assert(self.stats == st.stats);
                let fr = feed_result(st, old(self).spec_config(), rv, bytes as int, now);
                assert(rv.source_seq == Some(seq));
                assert(!(seq == 0 || seq == u64::MAX));
                assert(chs1[k as int].next == seq);
                assert(fr.0.stats == st.stats);
                assert(fr.0.channels == chs1.update(k as int, released(c2, false)));
                assert(fr.1 == Ok::<Seq<RecordView>, ReorderError>(seq![rv] + release_out(c2, false)));
                assert(record_views(out@) == seq![rv] + release_out(c2, false));
                assert(self.state().channels == fr.0.channels);
                assert(self.state().stats == fr.0.stats);
                assert(self.state() == fr.0);
                assert(result_views(Ok::<Vec<Record>, ReorderError>(out)) == fr.1);
                assert(self.spec_channels() =~= chs1.update(k as int, released(ChannelView { next: (seq + 1) as u64, ..chs1[k as int] }, false)));
            }
            return Ok(out);
        }
        if bytes > self.config.max_bytes {
            return Err(ReorderError::RecordTooLarge);
        }
        proof {
            lemma_feed_pressure(st, old(self).spec_config(), rv, bytes as int, now);
        }
        let ghost target = relieve(chs1, st.stats.skipped, self.config.max_records as int, self.config.max_bytes as int, bytes as int);
        let ghost fr = feed_result(st, old(self).spec_config(), rv, bytes as int, now);
        let mut output: Vec<Record> = Vec::new();
        proof {
            assert(record_views(output@) + target.2 =~= target.2);
        }
        while self.records >= self.config.max_records || bytes > self.config.max_bytes - self.bytes
            invariant
                self.source_sequences == old(self).source_sequences,
                self.wf(),
                k < self.spec_channels().len(),
                self.spec_channels().len() == chs1.len(),
                forall|i: int| 0 <= i < chs1.len() ==> #[trigger] self.spec_channels()[i].key == chs1[i].key,
                self.spec_config() == old(self).spec_config(),
                self.spec_number() == old(self).spec_number(),
                self.stats.duplicates == st.stats.duplicates,
                self.stats.missing_source_seq == st.stats.missing_source_seq,
                bytes <= self.config.max_bytes,
                fr == feed_result(old(self).state(), old(self).spec_config(), record@, bytes as int, now),
                !target.3 ==> fr.1 == Err::<Seq<RecordView>, ReorderError>(ReorderError::BudgetAccounting),
                !target.3 ==> fr.0.channels == target.0,
                !target.3 ==> fr.0.stats == (Stats { skipped: target.1, ..st.stats }),
                ({
                    let cur = relieve(self.spec_channels(), self.stats.skipped, self.config.max_records as int, self.config.max_bytes as int, bytes as int);
                    &&& cur.0 == target.0
                    &&& cur.1 == target.1
                    &&& cur.3 == target.3
                    &&& record_views(output@) + cur.2 == target.2
                }),
            decreases self.records,
        {
            let ghost cur = self.spec_channels();
            proof {
                reveal(Processor::wf);
            }
            match self.oldest() {
                None => {
                    proof {
                        let cr = relieve(cur, self.stats.skipped, self.config.max_records as int, self.config.max_bytes as int, bytes as int);
                        assert(count(cur) >= self.config.max_records || weight(cur) + bytes > self.config.max_bytes);
                        assert(cr == (cur, self.stats.skipped, Seq::<RecordView>::empty(), false));
                        assert(target.0 == cur);
                        assert(!target.3);
                        assert(self.stats.skipped == target.1);
                        assert(self.state().channels == fr.0.channels);
                        assert(self.state().stats == fr.0.stats);
                    }
                    return Err(ReorderError::BudgetAccounting);
                },
                Some(o) => {
                    let ghost c = cur[o as int];
                    proof {
                        lemma_released(c, true);
                        lemma_count_update(cur, o as int, released(c, true));
                    }
                    let mut part = self.release(o, true);
                    let ghost before = output@;
                    let ghost pv = part@;
                    output.append(&mut part);
                    proof {
                        lemma_record_views_append(before, pv);
                        let r1 = relieve(cur.update(o as int, released(c, true)), self.stats.skipped, self.config.max_records as int, self.config.max_bytes as int, bytes as int);
                        assert(record_views(output@) + r1.2 =~= record_views(before) + (release_out(c, true) + r1.2));
                        assert forall|i: int| 0 <= i < chs1.len() implies #[trigger] self.spec_channels()[i].key == chs1[i].key by {
                            assert(self.spec_channels()[i].key == cur[i].key);
                        }
                    }
                },
            }
        }
        proof {
            let cur = self.spec_channels();
            assert(relieve(cur, self.stats.skipped, self.config.max_records as int, self.config.max_bytes as int, bytes as int).2 =~= Seq::<RecordView>::empty());
            assert(record_views(output@) =~= target.2);
            assert(cur == target.0);
            reveal(Processor::wf);
        }
        let next2 = self.channels[k].next;
        assert(next2 == self.spec_channels()[k as int].next);
        if seq < next2 {
            self.stats.duplicates = self.stats.duplicates + 1;
            return Ok(output);
        }
        proof {
            // the record is not waiting: relieving only removes waiting records
            assert(channel_ok(self.spec_channels()[k as int]));
            lemma_relieve_subset(chs1, st.stats.skipped, self.config.max_records as int, self.config.max_bytes as int, bytes as int, k as int, seq);
        }
        let q = Queued { seq, record, received: now, bytes };
        let ghost qv = q@;
        self.insert_waiting(k, q);
        let ghost chs3 = self.spec_channels();
        let mut rest = self.release(k, false);
        let ghost before = output@;
        let ghost rv2 = rest@;
        output.append(&mut rest);
        proof {
            lemma_record_views_append(before, rv2);
            let fr = feed_result(st, old(self).spec_config(), rv, bytes as int, now);
            let c3 = insert_pending(target.0[k as int], qv);
            assert(chs3 == target.0.update(k as int, c3));
            assert(self.state().channels == fr.0.channels);
            assert(self.state().stats == fr.0.stats);
        }
        Ok(output)
    }
}

/// Relieving never adds a waiting sequence to a channel.
pub proof fn lemma_relieve_subset(
    chs: Seq<ChannelView>,
    skipped: u64,
    max_records: int,
    max_bytes: int,
    need: int,
    k: int,
    seq: u64,
)
    requires
        0 <= k < chs.len(),
        forall|i: int| 0 <= i < chs.len() ==> channel_ok(#[trigger] chs[i]),
        forall|i: int| 0 <= i < chs[k].pending.len() ==> #[trigger] chs[k].pending[i].seq != seq,
    ensures
        ({
            let r = relieve(chs, skipped, max_records, max_bytes, need);
            &&& r.0.len() == chs.len()
            &&& forall|i: int| 0 <= i < r.0[k].pending.len() ==> #[trigger] r.0[k].pending[i].seq != seq
            &&& forall|i: int| 0 <= i < r.0.len() ==> channel_ok(#[trigger] r.0[i])
            &&& forall|i: int| 0 <= i < r.0.len() ==> #[trigger] r.0[i].key == chs[i].key
            &&& r.0[k].next >= chs[k].next
        }),
    decreases count(chs),
{
    if count(chs) >= max_records || weight(chs) + need > max_bytes {
        match oldest_channel(chs) {
            None => {},
            Some(o) => {
                let c = chs[o];
                let u = chs.update(o, released(c, true));
                lemma_count_bounds(chs);
                lemma_count_update(chs, o, released(c, true));
                lemma_released(c, true);
                assert(is_oldest(chs, o)) by {
                    let w = choose|w: int| is_oldest(chs, w);
                    assert(is_oldest(chs, w));
                }
                assert forall|i: int| 0 <= i < u.len() implies channel_ok(#[trigger] u[i]) by {
                    if i != o {
                        assert(u[i] == chs[i]);
                    }
                }
                assert forall|i: int| 0 <= i < u[k].pending.len() implies #[trigger] u[k].pending[i].seq != seq by {
                    if k == o {
                        assert(u[k].pending[i] == c.pending[i + run_len(c.pending, release_start(c, true)) as int]);
                    }
                }
                lemma_relieve_subset(u, sat_add(skipped, release_skip(c, true)), max_records, max_bytes, need, k, seq);
            },
        }
    }
}


/// The channel list and position that `feed` works on for a sequenced record.
pub open spec fn feed_channels(chs: Seq<ChannelView>, r: RecordView) -> (Seq<ChannelView>, int) {
    let key = key_of(r);
    if find_key(chs, key) is None {
        (chs.push(fresh_channel(key)), chs.len() as int)
    } else {
        (chs, find_key(chs, key)->0)
    }
}

pub proof fn lemma_feed_duplicate(st: ReorderState, cfg: Config, r: RecordView, bytes: int, now: u64)
    requires
        cfg.reorder,
        r.source_seq is Some,
        r.source_seq->0 != 0,
        r.source_seq->0 != u64::MAX,
        !(find_key(st.channels, key_of(r)) is None && st.channels.len() >= cfg.max_channels),
        ({
            let c = feed_channels(st.channels, r).0[feed_channels(st.channels, r).1];
            let seq = r.source_seq->0;
            seq < c.next || exists|i: int| 0 <= i < c.pending.len() && c.pending[i].seq == seq
        }),
    ensures
        feed_result(st, cfg, r, bytes, now).0.channels == feed_channels(st.channels, r).0,
        feed_result(st, cfg, r, bytes, now).0.stats == (Stats { duplicates: (st.stats.duplicates + 1) as u64, ..st.stats }),
        feed_result(st, cfg, r, bytes, now).1 == Ok::<Seq<RecordView>, ReorderError>(Seq::empty()),
{
}

pub proof fn lemma_feed_pressure(st: ReorderState, cfg: Config, r: RecordView, bytes: int, now: u64)
    requires
        cfg.reorder,
        r.source_seq is Some,
        r.source_seq->0 != 0,
        r.source_seq->0 != u64::MAX,
        !(find_key(st.channels, key_of(r)) is None && st.channels.len() >= cfg.max_channels),
        ({
            let c = feed_channels(st.channels, r).0[feed_channels(st.channels, r).1];
            let seq = r.source_seq->0;
            &&& !(seq < c.next || exists|i: int| 0 <= i < c.pending.len() && c.pending[i].seq == seq)
            &&& seq != c.next
        }),
        bytes <= cfg.max_bytes,
    ensures
        ({
            let chs1 = feed_channels(st.channels, r).0;
            let k = feed_channels(st.channels, r).1;
            let seq = r.source_seq->0;
            let rl = relieve(chs1, st.stats.skipped, cfg.max_records as int, cfg.max_bytes as int, bytes);
            let fr = feed_result(st, cfg, r, bytes, now);
            let stats2 = Stats { skipped: rl.1, ..st.stats };
            if !rl.3 {
                &&& fr.0.channels == rl.0
                &&& fr.0.stats == stats2
                &&& fr.1 == Err::<Seq<RecordView>, ReorderError>(ReorderError::BudgetAccounting)
            } else if seq < rl.0[k].next {
                &&& fr.0.channels == rl.0
                &&& fr.0.stats == (Stats { duplicates: (st.stats.duplicates + 1) as u64, ..stats2 })
                &&& fr.1 == Ok::<Seq<RecordView>, ReorderError>(rl.2)
            } else {
                let c3 = insert_pending(rl.0[k], QueuedView { seq, record: r, received: now, bytes });
                &&& fr.0.channels == rl.0.update(k, released(c3, false))
                &&& fr.0.stats == stats2
                &&& fr.1 == Ok::<Seq<RecordView>, ReorderError>(rl.2 + release_out(c3, false))
            }
        }),
{
}


/// How long the record received at `t` has waited at `now`, in nanoseconds.
pub open spec fn age(now: u64, t: u64) -> int {
    if now >= t { now - t } else { 0 }
}

/// Expiry: while the oldest waiting record has waited `delay` nanoseconds or
/// more, its channel is released past its gap. Returns the channels, the skipped
/// counter and the released records.
pub open spec fn expired(chs: Seq<ChannelView>, skipped: u64, now: u64, delay: int) -> (Seq<ChannelView>, u64, Seq<RecordView>)
    decreases count(chs),
{
    match oldest_channel(chs) {
        None => (chs, skipped, Seq::empty()),
        Some(k) => {
            let c = chs[k];
            if age(now, min_received(c.pending)) < delay {
                (chs, skipped, Seq::empty())
            } else {
                let rest = chs.update(k, released(c, true));
                proof {
                    lemma_count_bounds(chs);
                    lemma_count_bounds(rest);
                    lemma_count_update(chs, k, released(c, true));
                    lemma_run_len(c.pending, release_start(c, true));
                }
                let r = expired(rest, sat_add(skipped, release_skip(c, true)), now, delay);
                (r.0, r.1, release_out(c, true) + r.2)
            }
        },
    }
}

/// The delay window of `cfg` in nanoseconds.
pub open spec fn delay_ns(cfg: Config) -> int {
    cfg.max_delay_ms * 1_000_000
}

impl Processor {
    /// Releases, oldest first, every channel whose oldest waiting record has
    /// waited at least the delay window at `now` (nanoseconds), skipping its gap.
    fn drain(&mut self, now: u64, forced: bool) -> (out: Vec<Record>)
        requires
            old(self).wf(),
        ensures
            final(self).wf(),
            ({
                let e = expired(old(self).spec_channels(), old(self).stats.skipped, now,
                    if forced { 0 } else { delay_ns(old(self).spec_config()) });
                &&& final(self).spec_channels() == e.0
                &&& final(self).stats.skipped == e.1
                &&& record_views(out@) == e.2
            }),
            final(self).stats.duplicates == old(self).stats.duplicates,
            final(self).stats.missing_source_seq == old(self).stats.missing_source_seq,
            final(self).spec_config() == old(self).spec_config(),
            final(self).spec_number() == old(self).spec_number(),
            forall|c: Option<Seq<char>>| #[trigger] final(self).derived(c) == old(self).derived(c),
            final(self).source_sequences == old(self).source_sequences,
            forced ==> forall|j: int| 0 <= j < final(self).spec_channels().len()
                ==> #[trigger] final(self).spec_channels()[j].pending.len() == 0,
    {
        let ghost delay: int = if forced { 0 } else { delay_ns(self.config) };
        let ghost target = expired(self.spec_channels(), self.stats.skipped, now, delay);
        let mut output: Vec<Record> = Vec::new();
        assert(record_views(output@) + target.2 =~= target.2);
        loop
            invariant
                self.source_sequences == old(self).source_sequences,
                self.wf(),
                delay == if forced { 0 } else { delay_ns(self.spec_config()) },
                self.spec_config() == old(self).spec_config(),
                self.spec_number() == old(self).spec_number(),
                self.source_sequences == old(self).source_sequences,
                self.stats.duplicates == old(self).stats.duplicates,
                self.stats.missing_source_seq == old(self).stats.missing_source_seq,
                ({
                    let cur = expired(self.spec_channels(), self.stats.skipped, now, delay);
                    &&& cur.0 == target.0
                    &&& cur.1 == target.1
                    &&& record_views(output@) + cur.2 == target.2
                }),
            ensures
                self.wf(),
                self.spec_channels() == target.0,
                self.stats.skipped == target.1,
                record_views(output@) == target.2,
                self.spec_config() == old(self).spec_config(),
                self.spec_number() == old(self).spec_number(),
                self.source_sequences == old(self).source_sequences,
                self.stats.duplicates == old(self).stats.duplicates,
                self.stats.missing_source_seq == old(self).stats.missing_source_seq,
                forced ==> forall|j: int| 0 <= j < self.spec_channels().len()
                    ==> #[trigger] self.spec_channels()[j].pending.len() == 0,
            decreases self.records,
        {
            let ghost cur = self.spec_channels();
            proof {
                reveal(Processor::wf);
            }
            let k = match self.oldest() {
                None => {
                    proof {
                        assert(record_views(output@) =~= target.2);
                    }
                    break;
                },
                Some(k) => k,
            };
            let ghost c = cur[k as int];
            if !forced {
                let t = earliest(&self.channels[k].pending);
                assert(t == min_received(c.pending));
                let waited: u64 = if now >= t { now - t } else { 0 };
                if (waited as u128) < (self.config.max_delay_ms as u128) * 1_000_000 {
                    proof {
                        assert(age(now, min_received(c.pending)) < delay);
                        assert(record_views(output@) =~= target.2);
                    }
                    break;
                }
            }
            proof {
                lemma_released(c, true);
                lemma_count_update(cur, k as int, released(c, true));
                assert(age(now, min_received(c.pending)) >= delay);
            }
            let mut part = self.release(k, true);
            let ghost before = output@;
            let ghost pv = part@;
            output.append(&mut part);
            proof {
                lemma_record_views_append(before, pv);
                let r1 = expired(cur.update(k as int, released(c, true)), self.stats.skipped, now, delay);
                assert(record_views(output@) + r1.2 =~= record_views(before) + (release_out(c, true) + r1.2));
            }
        }
        output
    }

    /// Releases channels whose oldest waiting record has waited the delay window.
    pub fn expire(&mut self, now: u64) -> (out: Vec<Record>)
        requires
            old(self).wf(),
        ensures
            final(self).wf(),
            ({
                let e = expired(old(self).spec_channels(), old(self).state().stats.skipped, now, delay_ns(old(self).spec_config()));
                &&& final(self).spec_channels() == e.0
                &&& final(self).state().stats.skipped == e.1
                &&& record_views(out@) == e.2
            }),
            final(self).state().stats.duplicates == old(self).state().stats.duplicates,
            final(self).state().stats.missing_source_seq == old(self).state().stats.missing_source_seq,
            final(self).spec_config() == old(self).spec_config(),
            final(self).spec_number() == old(self).spec_number(),
            forall|c: Option<Seq<char>>| #[trigger] final(self).derived(c) == old(self).derived(c),
    {
        self.drain(now, false)
    }

    /// Releases every waiting record, oldest channel first, skipping gaps.
    pub fn flush(&mut self) -> (out: Vec<Record>)
        requires
            old(self).wf(),
        ensures
            final(self).wf(),
            ({
                let e = expired(old(self).spec_channels(), old(self).state().stats.skipped, 0, 0);
                &&& final(self).spec_channels() == e.0
                &&& final(self).state().stats.skipped == e.1
                &&& record_views(out@) == e.2
            }),
            count(final(self).spec_channels()) == 0,
            final(self).state().stats.duplicates == old(self).state().stats.duplicates,
            final(self).state().stats.missing_source_seq == old(self).state().stats.missing_source_seq,
            final(self).spec_config() == old(self).spec_config(),
            final(self).spec_number() == old(self).spec_number(),
            forall|c: Option<Seq<char>>| #[trigger] final(self).derived(c) == old(self).derived(c),
    {
        let out = self.drain(0, true);
        proof {
            lemma_count_empty(self.spec_channels());
        }
        out
    }
}

/// Channels without waiting records hold none in total.
pub proof fn lemma_count_empty(chs: Seq<ChannelView>)
    requires
        forall|j: int| 0 <= j < chs.len() ==> #[trigger] chs[j].pending.len() == 0,
    ensures
        count(chs) == 0,
    decreases chs.len(),
{
    if chs.len() > 0 {
        assert(chs.last().pending.len() == 0);
        assert forall|j: int| 0 <= j < chs.drop_last().len() implies #[trigger] chs.drop_last()[j].pending.len() == 0 by {
            assert(chs.drop_last()[j] == chs[j]);
        }
        lemma_count_empty(chs.drop_last());
    }
}

/// The counter of `key` among `(key, counter)` pairs; the first pair wins, and
/// an absent key counts 0.
pub open spec fn lookup(s: Seq<(Option<Seq<char>>, u64)>, key: Option<Seq<char>>) -> u64
    decreases s.len(),
{
    if s.len() == 0 {
        0
    } else if s[0].0 == key {
        s[0].1
    } else {
        lookup(s.drop_first(), key)
    }
}

pub open spec fn counter_views(v: Seq<(Option<String>, u64)>) -> Seq<(Option<Seq<char>>, u64)> {
    v.map_values(|p: (Option<String>, u64)| (opt_text(p.0), p.1))
}

/// `s` with the pair at `i` (or a new last pair when `i` is past the end) set to `(key, v)`.
pub open spec fn set_at(s: Seq<(Option<Seq<char>>, u64)>, i: int, key: Option<Seq<char>>, v: u64) -> Seq<(Option<Seq<char>>, u64)> {
    if i < s.len() { s.update(i, (key, v)) } else { s.push((key, v)) }
}

/// Setting the first pair of `key` changes the counter of `key` alone.
pub proof fn lemma_lookup_set(s: Seq<(Option<Seq<char>>, u64)>, key: Option<Seq<char>>, i: int, v: u64)
    requires
        0 <= i <= s.len(),
        forall|j: int| 0 <= j < i ==> (#[trigger] s[j]).0 != key,
        i < s.len() ==> s[i].0 == key,
    ensures
        lookup(s, key) == (if i < s.len() { s[i].1 } else { 0 }),
        forall|k: Option<Seq<char>>| #[trigger] lookup(set_at(s, i, key, v), k) == if k == key { v } else { lookup(s, k) },
    decreases i,
{
    let t = set_at(s, i, key, v);
    if i == 0 {
        assert(t.len() > 0 && t[0] == (key, v));
        if s.len() > 0 {
            assert(t.drop_first() =~= s.drop_first());
        } else {
            assert(t.drop_first().len() == 0);
        }
        assert forall|k: Option<Seq<char>>| #[trigger] lookup(t, k) == if k == key { v } else { lookup(s, k) } by {
            if k != key {
                assert(lookup(t, k) == lookup(t.drop_first(), k));
                if s.len() > 0 {
                    assert(lookup(s, k) == lookup(s.drop_first(), k));
                }
            }
        }
    } else {
        assert(s[0].0 != key);
        let d = s.drop_first();
        assert forall|j: int| 0 <= j < i - 1 implies (#[trigger] d[j]).0 != key by {
            assert(d[j] == s[j + 1]);
        }
        lemma_lookup_set(d, key, i - 1, v);
        assert(t.drop_first() =~= set_at(d, i - 1, key, v));
        assert forall|k: Option<Seq<char>>| #[trigger] lookup(t, k) == if k == key { v } else { lookup(s, k) } by {
            assert(t[0] == s[0]);
            assert(lookup(set_at(d, i - 1, key, v), k) == if k == key { v } else { lookup(d, k) });
        }
    }
}

/// The decorated payload: optional number and timestamp prefixes, then the payload.
pub open spec fn decorated(cfg: Config, n: u64, r: RecordView) -> Seq<u8> {
    let ts = match r.source_ts_ns {
        Some(t) => t,
        None => r.observed_ts_ns,
    };
    (if cfg.number {
        seq![91u8, 110u8, 61u8] + decimal_bytes(n as nat) + seq![93u8, 32u8]
    } else {
        Seq::empty()
    }) + (if cfg.timestamp {
        seq![91u8, 116u8, 115u8, 95u8, 110u8, 115u8, 61u8] + decimal_bytes(ts as nat) + seq![93u8, 32u8]
    } else {
        Seq::empty()
    }) + r.payload
}

/// Whether two optional channel names are equal.
fn same_channel(a: &Option<String>, b: &Option<String>) -> (r: bool)
    ensures
        r == (opt_text(*a) == opt_text(*b)),
{
    match (a, b) {
        (None, None) => true,
        (Some(x), Some(y)) => *x == *y,
        _ => false,
    }
}

impl Processor {
    /// The last source sequence derived for `channel`; 0 before the first.
    pub closed spec fn derived(&self, channel: Option<Seq<char>>) -> u64 {
        lookup(counter_views(self.source_sequences@), channel)
    }

    /// The next source sequence of a derived channel, counting from 1 per channel.
    pub fn next_source_sequence(&mut self, channel: Option<String>) -> (r: Result<u64, ReorderError>)
        requires
            old(self).wf(),
        ensures
            final(self).wf(),
            final(self).state() == old(self).state(),
            final(self).spec_config() == old(self).spec_config(),
            final(self).spec_number() == old(self).spec_number(),
            old(self).derived(opt_text(channel)) == u64::MAX ==> {
                &&& r == Err::<u64, ReorderError>(ReorderError::Exhausted)
                &&& forall|c: Option<Seq<char>>| #[trigger] final(self).derived(c) == old(self).derived(c)
            },
            old(self).derived(opt_text(channel)) < u64::MAX ==> {
                &&& r == Ok::<u64, ReorderError>((old(self).derived(opt_text(channel)) + 1) as u64)
                &&& forall|c: Option<Seq<char>>| #[trigger] final(self).derived(c)
                    == if c == opt_text(channel) { (old(self).derived(opt_text(channel)) + 1) as u64 } else { old(self).derived(c) }
            },
    {
        let ghost key = opt_text(channel);
        let ghost s = counter_views(self.source_sequences@);
        let mut i: usize = 0;
        while i < self.source_sequences.len()
            invariant
                i <= s.len(),
                s == counter_views(self.source_sequences@),
                key == opt_text(channel),
                forall|j: int| 0 <= j < i ==> (#[trigger] s[j]).0 != key,
            ensures
                i <= s.len(),
                forall|j: int| 0 <= j < i ==> (#[trigger] s[j]).0 != key,
                i < s.len() ==> s[i as int].0 == key,
            decreases self.source_sequences.len() - i,
        {
            if same_channel(&self.source_sequences[i].0, &channel) {
                break;
            }
            i += 1;
        }
        proof {
            lemma_lookup_set(s, key, i as int, 0);
        }
        let current: u64 = if i < self.source_sequences.len() { self.source_sequences[i].1 } else { 0 };
        if current == u64::MAX {
            return Err(ReorderError::Exhausted);
        }
        let next = current + 1;
        if i < self.source_sequences.len() {
            self.source_sequences.set(i, (channel, next));
        } else {
            self.source_sequences.push((channel, next));
        }
        proof {
            lemma_lookup_set(s, key, i as int, next);
            assert(counter_views(self.source_sequences@) =~= set_at(s, i as int, key, next));
        }
        Ok(next)
    }

    /// The payload of `record` with the configured prefixes; counts every call
    /// that does not exhaust the numbering.
    pub fn decorate(&mut self, record: &Record) -> (r: Result<Vec<u8>, ReorderError>)
        requires
            old(self).wf(),
        ensures
            final(self).wf(),
            final(self).state() == old(self).state(),
            final(self).spec_config() == old(self).spec_config(),
            forall|c: Option<Seq<char>>| #[trigger] final(self).derived(c) == old(self).derived(c),
            old(self).spec_number() == u64::MAX ==> {
                &&& r == Err::<Vec<u8>, ReorderError>(ReorderError::Exhausted)
                &&& final(self).spec_number() == old(self).spec_number()
            },
            old(self).spec_number() < u64::MAX ==> {
                let out = decorated(old(self).spec_config(), final(self).spec_number(), record@);
                &&& final(self).spec_number() == old(self).spec_number() + 1
                &&& out.len() > MAX_PAYLOAD ==> r == Err::<Vec<u8>, ReorderError>(ReorderError::PayloadTooLarge)
                &&& out.len() <= MAX_PAYLOAD ==> (r matches Ok(v) && v@ == out)
            },
    {
        if self.number == u64::MAX {
            return Err(ReorderError::Exhausted);
        }
        self.number = self.number + 1;
        let mut output: Vec<u8> = Vec::new();
        let ghost head = output@;
        if self.config.number {
            output.push(91u8);
            output.push(110u8);
            output.push(61u8);
            crate::text::append_decimal_bytes(&mut output, self.number);
            output.push(93u8);
            output.push(32u8);
        }
        let ghost numbered = output@;
        if self.config.timestamp {
            let ts = match record.source_ts_ns {
                Some(t) => t,
                None => record.observed_ts_ns,
            };
            output.push(91u8);
            output.push(116u8);
            output.push(115u8);
            output.push(95u8);
            output.push(110u8);
            output.push(115u8);
            output.push(61u8);
            crate::text::append_decimal_bytes(&mut output, ts);
            output.push(93u8);
            output.push(32u8);
        }
        let ghost stamped = output@;
        crate::text::append_bytes(&mut output, record.payload.as_slice());
        proof {
            let cfg = self.config;
            let nb = if cfg.number { seq![91u8, 110u8, 61u8] + decimal_bytes(self.number as nat) + seq![93u8, 32u8] } else { Seq::<u8>::empty() };
            assert(numbered =~= nb);
            let ts = match record.source_ts_ns { Some(t) => t, None => record.observed_ts_ns };
            let tb = if cfg.timestamp { seq![91u8, 116u8, 115u8, 95u8, 110u8, 115u8, 61u8] + decimal_bytes(ts as nat) + seq![93u8, 32u8] } else { Seq::<u8>::empty() };
            assert(stamped =~= nb + tb);
            assert(output@ =~= decorated(cfg, self.number, record@));
        }
        if output.len() > MAX_PAYLOAD {
            return Err(ReorderError::PayloadTooLarge);
        }
        Ok(output)
    }
}

} // verus!
