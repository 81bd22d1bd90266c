//! Archive bookkeeping of the file output: configuration rules, per-stream
//! cursors, how records and gaps move them, and the replay of a record index
//! against its checkpoint.
use vstd::prelude::*;
use vstd::utf8::encode_utf8;
use crate::config::{texts, distinct_texts, distinct, contains_text};
use crate::limits::MAX_WIRE;
use crate::text::{text_eq, decimal_bytes};

verus! {

/// The version of the checkpoint and index layout.
pub const SCHEMA_VERSION: u32 = 1;

/// How an archive starts.
#[derive(Clone, Copy, Debug, PartialEq, Eq)]
pub enum Mode {
    Create,
    Resume,
}

/// What the file target writes per record.
#[derive(Clone, Copy, Debug, PartialEq, Eq)]
pub enum Format {
    Raw,
    Jsonl,
}

/// File targets: one path per stream.
#[derive(Clone, Debug)]
pub struct FileConfig {
    pub format: Format,
    /// Stream name and its archive path, sorted by name, names unique.
    pub paths: Vec<(String, String)>,
}

/// The SQLite target.
#[derive(Clone, Debug)]
pub struct SqliteConfig {
    pub path: String,
}

/// When written records are made durable.
#[derive(Clone, Copy, Debug)]
pub struct CommitConfig {
    pub max_records: usize,
    pub max_bytes: usize,
    pub max_delay_ms: u64,
}

/// How much may wait for a commit.
#[derive(Clone, Copy, Debug)]
pub struct QueueConfig {
    pub max_records: usize,
    pub max_bytes: usize,
}

impl Default for CommitConfig {
    /// 64 records, 4 MiB, 100 ms.
    fn default() -> (c: CommitConfig)
        ensures
            c.max_records == 64,
            c.max_bytes == 4194304,
            c.max_delay_ms == 100,
    {
        CommitConfig { max_records: 64, max_bytes: 4194304, max_delay_ms: 100 }
    }
}

impl Default for QueueConfig {
    /// 256 records, 16 MiB.
    fn default() -> (c: QueueConfig)
        ensures
            c.max_records == 256,
            c.max_bytes == 16777216,
    {
        QueueConfig { max_records: 256, max_bytes: 16777216 }
    }
}

/// The sequence a cursor starts from when none is configured.
pub fn default_from() -> (n: u64)
    ensures
        n == 1,
{
    1
}

/// Gaps fail the archive unless configured otherwise.
pub fn yes() -> (b: bool)
    ensures
        b,
{
    true
}

/// The configuration of an archiving Output.
#[derive(Clone, Debug)]
pub struct ArchiveConfig {
    pub streams: Vec<String>,
    pub from: u64,
    pub mode: Mode,
    pub file: Option<FileConfig>,
    pub sqlite: Option<SqliteConfig>,
    pub commit: CommitConfig,
    pub queue: QueueConfig,
    pub fail_on_gap: bool,
}

/// Why an archive configuration is refused.
#[derive(Clone, Copy, Debug, PartialEq, Eq)]
pub enum ArchiveConfigError {
    /// "streams must be nonempty, unique nonempty names"
    Streams,
    /// "at least one archive target is required"
    NoTarget,
    /// "file.paths must contain exactly the configured streams"
    PathsMismatch,
    /// "file paths must not be empty"
    EmptyFilePath,
    /// "sqlite path must not be empty"
    EmptySqlitePath,
    /// "invalid commit limits (records 1..65536, bytes 1..64MiB, delay 1..60000ms)"
    CommitLimits,
    /// "invalid queue limits (records 1..65536, bytes 1MiB..1GiB)"
    QueueLimits,
    /// "streams must be contained in plugin reads"
    NotRead,
}

/// Some pair of `paths` is named `s`.
pub open spec fn named(paths: Seq<(Seq<char>, Seq<char>)>, s: Seq<char>) -> bool {
    exists|b: int| 0 <= b < paths.len() && #[trigger] paths[b].0 == s
}

/// The names of `paths` are exactly `streams`.
pub open spec fn paths_match(streams: Seq<Seq<char>>, paths: Seq<(Seq<char>, Seq<char>)>) -> bool {
    &&& forall|i: int| 0 <= i < paths.len() ==> streams.contains(#[trigger] paths[i].0)
    &&& forall|i: int| 0 <= i < streams.len() ==> named(paths, #[trigger] streams[i])
}

/// Some path of `paths` is empty.
pub open spec fn blank_path(paths: Seq<(Seq<char>, Seq<char>)>) -> bool {
    exists|i: int| 0 <= i < paths.len() && (#[trigger] paths[i]).1.len() == 0
}

/// The first rule `c` breaks, if any. `streams` are the configured stream
/// names and `paths` the file target's (name, path) pairs.
pub open spec fn archive_config_fault(
    streams: Seq<Seq<char>>,
    file: Option<Seq<(Seq<char>, Seq<char>)>>,
    sqlite: Option<Seq<char>>,
    commit: CommitConfig,
    queue: QueueConfig,
) -> Option<ArchiveConfigError> {
    if streams.len() == 0 || !distinct_texts(streams) || exists|i: int| 0 <= i < streams.len() && #[trigger] streams[i].len() == 0 {
        Some(ArchiveConfigError::Streams)
    } else if file is None && sqlite is None {
        Some(ArchiveConfigError::NoTarget)
    } else if file is Some && !paths_match(streams, file->0) {
        Some(ArchiveConfigError::PathsMismatch)
    } else if file is Some && blank_path(file->0) {
        Some(ArchiveConfigError::EmptyFilePath)
    } else if sqlite matches Some(p) && p.len() == 0 {
        Some(ArchiveConfigError::EmptySqlitePath)
    } else if !(1 <= commit.max_records <= 65536) || !(1 <= commit.max_bytes <= 67108864) || !(1 <= commit.max_delay_ms <= 60000) {
        Some(ArchiveConfigError::CommitLimits)
    } else if !(1 <= queue.max_records <= 65536) || !(MAX_WIRE <= queue.max_bytes <= 1073741824) {
        Some(ArchiveConfigError::QueueLimits)
    } else {
        None
    }
}

/// Whether some name in `v` is empty.
fn any_empty(v: &Vec<String>) -> (b: bool)
    ensures
        b == exists|j: int| 0 <= j < texts(v@).len() && #[trigger] texts(v@)[j].len() == 0,
{
    let mut i: usize = 0;
    while i < v.len()
        invariant
            i <= v@.len(),
            forall|j: int| 0 <= j < i ==> #[trigger] texts(v@)[j].len() != 0,
        decreases v.len() - i,
    {
        assert(texts(v@)[i as int] == v@[i as int]@);
        if v[i].as_str().is_empty() {
            return true;
        }
        i += 1;
    }
    false
}

/// Whether every pair of `paths` names one of `streams`.
fn all_known(paths: &Vec<(String, String)>, streams: &Vec<String>) -> (b: bool)
    ensures
        b == forall|i: int| 0 <= i < path_views(paths@).len() ==> texts(streams@).contains(#[trigger] path_views(paths@)[i].0),
{
    let ghost pv = path_views(paths@);
    let mut j: usize = 0;
    while j < paths.len()
        invariant
            j <= pv.len(),
            pv == path_views(paths@),
            forall|a: int| 0 <= a < j ==> texts(streams@).contains(#[trigger] pv[a].0),
        decreases paths.len() - j,
    {
        assert(pv[j as int].0 == paths@[j as int].0@);
        if !contains_text(streams, paths[j].0.as_str()) {
            return false;
        }
        j += 1;
    }
    true
}

/// Whether every name of `streams` has a pair in `paths`.
fn all_named(paths: &Vec<(String, String)>, streams: &Vec<String>) -> (b: bool)
    ensures
        b == forall|i: int| 0 <= i < texts(streams@).len() ==> named(path_views(paths@), #[trigger] texts(streams@)[i]),
{
    let ghost pv = path_views(paths@);
    let ghost sv = texts(streams@);
    let mut i: usize = 0;
    while i < streams.len()
        invariant
            i <= sv.len(),
            pv == path_views(paths@),
            sv == texts(streams@),
            forall|a: int| 0 <= a < i ==> named(pv, #[trigger] sv[a]),
        decreases streams.len() - i,
    {
        let mut j: usize = 0;
        while j < paths.len()
            invariant
                i < sv.len(),
                j <= pv.len(),
                pv == path_views(paths@),
                sv == texts(streams@),
                forall|b: int| 0 <= b < j ==> #[trigger] pv[b].0 != sv[i as int],
            ensures
                j <= pv.len(),
                forall|b: int| 0 <= b < j ==> #[trigger] pv[b].0 != sv[i as int],
                j < pv.len() ==> pv[j as int].0 == sv[i as int],
            decreases paths.len() - j,
        {
            assert(pv[j as int].0 == paths@[j as int].0@);
            assert(sv[i as int] == streams@[i as int]@);
            if text_eq(paths[j].0.as_str(), streams[i].as_str()) {
                break;
            }
            j += 1;
        }
        if j == paths.len() {
            proof {
                assert(!named(pv, sv[i as int]));
            }
            return false;
        }
        proof {
            assert(named(pv, sv[i as int]));
        }
        i += 1;
    }
    true
}

/// Whether some path of `paths` is empty.
fn any_blank(paths: &Vec<(String, String)>) -> (b: bool)
    ensures
        b == exists|i: int| 0 <= i < path_views(paths@).len() && (#[trigger] path_views(paths@)[i]).1.len() == 0,
{
    let ghost pv = path_views(paths@);
    let mut j: usize = 0;
    while j < paths.len()
        invariant
            j <= pv.len(),
            pv == path_views(paths@),
            forall|a: int| 0 <= a < j ==> (#[trigger] pv[a]).1.len() != 0,
        decreases paths.len() - j,
    {
        assert(pv[j as int].1 == paths@[j as int].1@);
        if paths[j].1.as_str().is_empty() {
            return true;
        }
        j += 1;
    }
    false
}

pub open spec fn path_views(v: Seq<(String, String)>) -> Seq<(Seq<char>, Seq<char>)> {
    v.map_values(|p: (String, String)| (p.0@, p.1@))
}

impl ArchiveConfig {
    pub open spec fn spec_file(&self) -> Option<Seq<(Seq<char>, Seq<char>)>> {
        match self.file {
            Some(f) => Some(path_views(f.paths@)),
            None => None,
        }
    }

    pub open spec fn spec_sqlite(&self) -> Option<Seq<char>> {
        match self.sqlite {
            Some(s) => Some(s.path@),
            None => None,
        }
    }

    /// Checks names, targets, paths and limits, in that order.
    pub fn validate(&self) -> (r: Result<(), ArchiveConfigError>)
        ensures
            match archive_config_fault(texts(self.streams@), self.spec_file(), self.spec_sqlite(), self.commit, self.queue) {
                Some(e) => r == Err::<(), ArchiveConfigError>(e),
                None => r is Ok,
            },
    {
        if self.streams.len() == 0 || !distinct(&self.streams) || any_empty(&self.streams) {
            return Err(ArchiveConfigError::Streams);
        }
        if self.file.is_none() && self.sqlite.is_none() {
            return Err(ArchiveConfigError::NoTarget);
        }
        match &self.file {
            Some(f) => {
                if !all_known(&f.paths, &self.streams) || !all_named(&f.paths, &self.streams) {
                    return Err(ArchiveConfigError::PathsMismatch);
                }
                if any_blank(&f.paths) {
                    return Err(ArchiveConfigError::EmptyFilePath);
                }
            },
            None => {},
        }
        match &self.sqlite {
            Some(s) => {
                if s.path.as_str().is_empty() {
                    return Err(ArchiveConfigError::EmptySqlitePath);
                }
            },
            None => {},
        }
        let c = self.commit;
        if !(1 <= c.max_records && c.max_records <= 65536) || !(1 <= c.max_bytes && c.max_bytes <= 67108864)
            || !(1 <= c.max_delay_ms && c.max_delay_ms <= 60000) {
            return Err(ArchiveConfigError::CommitLimits);
        }
        let q = self.queue;
        if !(1 <= q.max_records && q.max_records <= 65536) || !(MAX_WIRE <= q.max_bytes && q.max_bytes <= 1073741824) {
            return Err(ArchiveConfigError::QueueLimits);
        }
        Ok(())
    }

    /// Every archived stream must be one the plugin reads.
    pub fn validate_reads(&self, reads: &Vec<String>) -> (r: Result<(), ArchiveConfigError>)
        ensures
            r is Ok <==> forall|i: int| 0 <= i < self.streams@.len() ==> texts(reads@).contains(#[trigger] texts(self.streams@)[i]),
            r is Err ==> r == Err::<(), ArchiveConfigError>(ArchiveConfigError::NotRead),
    {
        let ghost sv = texts(self.streams@);
        let mut i: usize = 0;
        while i < self.streams.len()
            invariant
                i <= sv.len(),
                sv == texts(self.streams@),
                forall|a: int| 0 <= a < i ==> texts(reads@).contains(#[trigger] sv[a]),
            decreases self.streams.len() - i,
        {
            assert(sv[i as int] == self.streams@[i as int]@);
            if !contains_text(reads, self.streams[i].as_str()) {
                return Err(ArchiveConfigError::NotRead);
            }
            i += 1;
        }
        Ok(())
    }
}

/// A stream position: the epoch and the next expected sequence.
#[derive(Clone, Debug)]
pub struct Cursor {
    pub epoch: String,
    pub next: u64,
}

/// A range of sequences the Core reported as lost.
#[derive(Clone, Debug)]
pub struct Gap {
    pub stream: String,
    pub epoch: String,
    pub from: u64,
    pub to: u64,
    pub reason: String,
}

/// The identity of a file on its volume.
#[derive(Clone, Copy, Debug, PartialEq, Eq)]
pub struct FileIdentity {
    pub volume: u64,
    pub index: u64,
}

/// The durable state of one file target.
#[derive(Clone, Debug)]
pub struct FileCheckpoint {
    pub schema_version: u32,
    pub archive_id: String,
    pub config_digest: String,
    pub stream: String,
    pub initial: Cursor,
    pub cursor: Cursor,
    pub file_identity: FileIdentity,
    pub index_identity: FileIdentity,
    pub confirmed_len: u64,
    pub confirmed_sha256: String,
    pub index_len: u64,
    pub index_sha256: String,
    pub gap_count: u64,
    pub incomplete: bool,
}

/// The path of a state file beside `path`: `path` followed by `suffix`.
pub fn sibling(path: &str, suffix: &str) -> (p: String)
    ensures
        p@ == path@ + suffix@,
{
    let mut p = path.to_owned();
    crate::text::append_str(&mut p, suffix);
    p
}

/// The SHA-256 digest of `bytes` in lowercase hexadecimal, as sha2's
/// `Sha256::digest` formatted with `{:x}` renders it.
pub uninterp spec fn sha256_hex(bytes: Seq<u8>) -> Seq<char>;

/// A lowercase hexadecimal digit.
pub open spec fn lower_hex_char(c: char) -> bool {
    ('0' <= c <= '9') || ('a' <= c <= 'f')
}

/// sha2's `Sha256::digest` rendered with `{:x}`: 64 lowercase hexadecimal
/// digits, two per digest byte (generic-array's `LowerHex`). Which digits is
/// named, not stated.
#[verifier::external_body]
fn sha256_digest_hex(bytes: &[u8]) -> (h: String)
    ensures
        h@ == sha256_hex(bytes@),
        h@.len() == 64,
        forall|i: int| 0 <= i < 64 ==> lower_hex_char(#[trigger] h@[i]),
{
    format!("{:x}", <sha2::Sha256 as sha2::Digest>::digest(bytes))
}

/// The SHA-256 digest of `bytes` as 64 lowercase hexadecimal digits.
pub fn hex_hash(bytes: &[u8]) -> (h: String)
    ensures
        h@ == sha256_hex(bytes@),
        h@.len() == 64,
        forall|i: int| 0 <= i < 64 ==> lower_hex_char(#[trigger] h@[i]),
{
    sha256_digest_hex(bytes)
}

/// Why archive bookkeeping refuses a step.
#[derive(Clone, Copy, Debug, PartialEq, Eq)]
pub enum ArchiveError {
    /// A record or gap of another epoch than the cursor's.
    EpochChanged,
    /// A record beyond the next expected sequence, without a gap.
    UnannouncedGap,
    /// The cursor cannot pass `u64::MAX`.
    SequenceExhausted,
    /// A gap that is empty or of another epoch.
    InvalidGap,
    /// A gap that starts after the next expected sequence.
    GapNotCovering,
    /// A text that is not a decimal number.
    InvalidDecimal,
    /// A decimal number with a sign or leading zeros.
    NoncanonicalDecimal,
    /// An index record entry that does not continue the cursor and offsets.
    IndexInconsistent,
    /// An index gap entry that is invalid.
    IndexGapInvalid,
    /// Index sequences or lengths overflow.
    IndexOverflow,
    /// The checkpoint disagrees with its replayed index.
    CheckpointDisagrees,
    /// An archive file is shorter than its checkpoint confirmed.
    ArchiveShorter,
    /// An archive file's confirmed prefix no longer has its confirmed digest.
    ConfirmedContentChanged,
    /// Stored history names a stream that is not archived.
    UnknownStream,
    /// Stored history does not continue a stream's cursor.
    HistoryDiscontinuous,
    /// A stored record no longer has the content it was stored with.
    RecordChanged,
    /// Stored history passes `u64::MAX`.
    HistoryOverflow,
    /// A stored gap is inconsistent with its stream's cursor.
    GapMetadataInvalid,
    /// A re-delivered record differs from the archived one.
    ConflictingDuplicate,
    /// A re-delivered record is not in the archive.
    DuplicateAbsent,
}

/// What a record does to a target at cursor `next`.
#[derive(Clone, Copy, Debug, PartialEq, Eq)]
pub enum RecordStep {
    /// Already archived: check it against the index.
    Duplicate,
    /// The next record: write it; the cursor moves to `next`.
    Append { next: u64 },
}

/// How a target at cursor (`epoch`, `next`) takes the record (`record_epoch`, `seq`).
pub open spec fn record_step(epoch: Seq<char>, next: u64, record_epoch: Seq<char>, seq: u64) -> Result<RecordStep, ArchiveError> {
    if record_epoch != epoch {
        Err(ArchiveError::EpochChanged)
    } else if seq < next {
        Ok(RecordStep::Duplicate)
    } else if seq != next {
        Err(ArchiveError::UnannouncedGap)
    } else if seq == u64::MAX {
        Err(ArchiveError::SequenceExhausted)
    } else {
        Ok(RecordStep::Append { next: (seq + 1) as u64 })
    }
}

/// Decides how a target at `cursor` takes a record of `record_epoch` numbered `seq`.
pub fn take_record(cursor: &Cursor, record_epoch: &str, seq: u64) -> (r: Result<RecordStep, ArchiveError>)
    ensures
        r == record_step(cursor.epoch@, cursor.next, record_epoch@, seq),
{
    if !text_eq(record_epoch, cursor.epoch.as_str()) {
        return Err(ArchiveError::EpochChanged);
    }
    if seq < cursor.next {
        return Ok(RecordStep::Duplicate);
    }
    if seq != cursor.next {
        return Err(ArchiveError::UnannouncedGap);
    }
    if seq == u64::MAX {
        return Err(ArchiveError::SequenceExhausted);
    }
    Ok(RecordStep::Append { next: seq + 1 })
}

/// What a reported gap does to a target.
#[derive(Clone, Copy, Debug, PartialEq, Eq)]
pub enum GapStep {
    /// An advancing gap wholly behind the cursor: nothing to record.
    Ignore,
    /// Record the gap, mark the target incomplete and move the cursor to `next`.
    Record { next: u64 },
}

/// How a target at cursor (`epoch`, `next`) takes the gap `from..=to` of
/// `gap_epoch`; an advancing gap moves the cursor past it.
pub open spec fn gap_step(epoch: Seq<char>, next: u64, gap_epoch: Seq<char>, from: u64, to: u64, advances: bool) -> Result<GapStep, ArchiveError> {
    if gap_epoch != epoch || to < from {
        Err(ArchiveError::InvalidGap)
    } else if to < next && advances {
        Ok(GapStep::Ignore)
    } else if from > next {
        Err(ArchiveError::GapNotCovering)
    } else if !advances {
        Ok(GapStep::Record { next })
    } else if to == u64::MAX {
        Err(ArchiveError::SequenceExhausted)
    } else {
        Ok(GapStep::Record { next: if to + 1 > next { (to + 1) as u64 } else { next } })
    }
}

/// Decides how a target at `cursor` takes `gap`.
pub fn take_gap(cursor: &Cursor, gap: &Gap, advances: bool) -> (r: Result<GapStep, ArchiveError>)
    ensures
        r == gap_step(cursor.epoch@, cursor.next, gap.epoch@, gap.from, gap.to, advances),
{
    if !text_eq(gap.epoch.as_str(), cursor.epoch.as_str()) || gap.to < gap.from {
        return Err(ArchiveError::InvalidGap);
    }
    if gap.to < cursor.next && advances {
        return Ok(GapStep::Ignore);
    }
    if gap.from > cursor.next {
        return Err(ArchiveError::GapNotCovering);
    }
    if !advances {
        return Ok(GapStep::Record { next: cursor.next });
    }
    if gap.to == u64::MAX {
        return Err(ArchiveError::SequenceExhausted);
    }
    let after = gap.to + 1;
    Ok(GapStep::Record { next: if after > cursor.next { after } else { cursor.next } })
}

/// A cursor as (epoch, next).
pub open spec fn cursor_view(c: Cursor) -> (Seq<char>, u64) {
    (c.epoch@, c.next)
}

/// One stream's place in one archive target: the cursor and gap count the
/// target has made durable, and those written since the last commit.
#[derive(Clone, Debug)]
pub struct TargetCursor {
    pub confirmed: Cursor,
    pub pending: Cursor,
    pub confirmed_gaps: u64,
    pub pending_gaps: u64,
}

impl TargetCursor {
    /// A target resumed (or created) at `cursor` with `gaps` gaps on record,
    /// nothing written since.
    pub fn new(cursor: Cursor, gaps: u64) -> (t: TargetCursor)
        ensures
            cursor_view(t.confirmed) == cursor_view(cursor),
            cursor_view(t.pending) == cursor_view(cursor),
            t.confirmed_gaps == gaps,
            t.pending_gaps == gaps,
    {
        let pending = Cursor { epoch: cursor.epoch.clone(), next: cursor.next };
        TargetCursor { confirmed: cursor, pending, confirmed_gaps: gaps, pending_gaps: gaps }
    }

    /// Takes the record (`record_epoch`, `seq`) at the written cursor: an
    /// appended record moves it, a duplicate or a refusal leaves everything as
    /// it was; what is confirmed never changes before a commit.
    pub fn accept(&mut self, record_epoch: &str, seq: u64) -> (r: Result<RecordStep, ArchiveError>)
        ensures
            r == record_step(old(self).pending.epoch@, old(self).pending.next, record_epoch@, seq),
            cursor_view(final(self).confirmed) == cursor_view(old(self).confirmed),
            final(self).confirmed_gaps == old(self).confirmed_gaps,
            final(self).pending_gaps == old(self).pending_gaps,
            final(self).pending.epoch@ == old(self).pending.epoch@,
            final(self).pending.next == match r {
                Ok(RecordStep::Append { next }) => next,
                _ => old(self).pending.next,
            },
    {
        let r = take_record(&self.pending, record_epoch, seq);
        if let Ok(RecordStep::Append { next }) = r {
            self.pending.next = next;
        }
        r
    }

    /// Takes `gap` at the written cursor. A recorded gap is counted, which
    /// marks the target incomplete once committed, and moves the written
    /// cursor past the gap only if it advances; an ignored gap or a refusal
    /// leaves everything as it was; what is confirmed never changes before a commit.
    pub fn gap(&mut self, gap: &Gap, advances: bool) -> (r: Result<GapStep, ArchiveError>)
        requires
            old(self).pending_gaps < u64::MAX,
        ensures
            r == gap_step(old(self).pending.epoch@, old(self).pending.next, gap.epoch@, gap.from, gap.to, advances),
            cursor_view(final(self).confirmed) == cursor_view(old(self).confirmed),
            final(self).confirmed_gaps == old(self).confirmed_gaps,
            final(self).pending.epoch@ == old(self).pending.epoch@,
            match r {
                Ok(GapStep::Record { next }) => final(self).pending.next == next
                    && final(self).pending_gaps == old(self).pending_gaps + 1,
                _ => final(self).pending.next == old(self).pending.next
                    && final(self).pending_gaps == old(self).pending_gaps,
            },
    {
        let r = take_gap(&self.pending, gap, advances);
        if let Ok(GapStep::Record { next }) = r {
            self.pending.next = next;
            self.pending_gaps = self.pending_gaps + 1;
        }
        r
    }

    /// Makes what was written durable: the confirmed cursor and gap count
    /// become the written ones.
    pub fn commit(&mut self)
        ensures
            cursor_view(final(self).confirmed) == cursor_view(old(self).pending),
            cursor_view(final(self).pending) == cursor_view(old(self).pending),
            final(self).confirmed_gaps == old(self).pending_gaps,
            final(self).pending_gaps == old(self).pending_gaps,
    {
        self.confirmed = Cursor { epoch: self.pending.epoch.clone(), next: self.pending.next };
        self.confirmed_gaps = self.pending_gaps;
    }

    /// Whether the target has confirmed a gap, so its archive is incomplete.
    pub fn incomplete(&self) -> (b: bool)
        ensures
            b == (self.confirmed_gaps > 0),
    {
        self.confirmed_gaps > 0
    }
}

/// The value of the decimal digits `d`, most significant first.
pub open spec fn digits_value(d: Seq<u8>) -> nat
    decreases d.len(),
{
    if d.len() == 0 {
        0
    } else {
        digits_value(d.drop_last()) * 10 + (d.last() - 48) as nat
    }
}

pub open spec fn all_digits(d: Seq<u8>) -> bool {
    forall|i: int| 0 <= i < d.len() ==> 48 <= #[trigger] d[i] <= 57
}

/// The digits of `b` after an optional `+`, as `u64` parsing reads them.
pub open spec fn unsigned_digits(b: Seq<u8>) -> Seq<u8> {
    if b.len() > 0 && b[0] == 43 { b.drop_first() } else { b }
}

/// What `u64` parsing reads from `s`: an optional `+` and at least one digit,
/// within `u64`.
pub open spec fn u64_text(s: Seq<char>) -> Option<u64> {
    let d = unsigned_digits(encode_utf8(s));
    if d.len() == 0 || !all_digits(d) || digits_value(d) > u64::MAX {
        None
    } else {
        Some(digits_value(d) as u64)
    }
}

/// A decimal number stored as text: `u64` parsing accepts it (an optional `+`
/// and at least one digit, within `u64`), and it must read back identically.
pub open spec fn unsigned_text(s: Seq<char>) -> Result<u64, ArchiveError> {
    match u64_text(s) {
        None => Err(ArchiveError::InvalidDecimal),
        Some(n) => if encode_utf8(s) != decimal_bytes(n as nat) {
            Err(ArchiveError::NoncanonicalDecimal)
        } else {
            Ok(n)
        },
    }
}

proof fn lemma_digits_value_push(d: Seq<u8>, c: u8)
    ensures
        digits_value(d.push(c)) == digits_value(d) * 10 + (c - 48) as nat,
{
    assert(d.push(c).drop_last() =~= d);
}

/// Parses an unsigned decimal as `u64` parsing does: an optional `+` and at
/// least one digit, within `u64`.
pub fn parse_u64(value: &str) -> (r: Option<u64>)
    ensures
        r == u64_text(value@),
{
    let b = value.as_bytes();
    let start: usize = if b.len() > 0 && b[0] == 43 { 1 } else { 0 };
    let ghost d = unsigned_digits(b@);
    proof {
        if start == 1 {
            assert(d =~= b@.skip(1));
        } else {
            assert(d =~= b@.skip(0));
        }
    }
    if start == b.len() {
        return None;
    }
    let mut n: u64 = 0;
    let mut i: usize = start;
    while i < b.len()
        invariant
            start <= i <= b@.len(),
            b@ == encode_utf8(value@),
            d == unsigned_digits(b@),
            d == b@.skip(start as int),
            all_digits(b@.subrange(start as int, i as int)),
            n == digits_value(b@.subrange(start as int, i as int)),
        decreases b.len() - i,
    {
        let c = b[i];
        proof {
            assert(b@.subrange(start as int, i as int + 1) =~= b@.subrange(start as int, i as int).push(c));
            lemma_digits_value_push(b@.subrange(start as int, i as int), c);
        }
        if c < 48 || c > 57 {
            proof {
                assert(d[i - start] == c);
                assert(!all_digits(d));
            }
            return None;
        }
        let v = (c - 48) as u64;
        if n > 1844674407370955161 || (n == 1844674407370955161 && v > 5) {
            proof {
                assert(n * 10 + v > u64::MAX) by (nonlinear_arith)
                    requires
                        n > 1844674407370955161 || (n == 1844674407370955161 && v > 5);
                if all_digits(d) {
                    lemma_prefix_value_bound(d, (i - start) as int + 1);
                    assert(d.take((i - start) as int + 1) =~= b@.subrange(start as int, i as int + 1));
                }
            }
            return None;
        }
        n = n * 10 + v;
        i += 1;
    }
    proof {
        assert(b@.subrange(start as int, b@.len() as int) =~= d);
    }
    Some(n)
}

/// Parses a canonical unsigned decimal: refused when it is no `u64` or does not
/// read back as written.
pub fn unsigned(value: &str) -> (r: Result<u64, ArchiveError>)
    ensures
        r == unsigned_text(value@),
{
    let n = match parse_u64(value) {
        None => {
            return Err(ArchiveError::InvalidDecimal);
        },
        Some(n) => n,
    };
    let b = value.as_bytes();
    let mut canon: Vec<u8> = Vec::new();
    crate::text::append_decimal_bytes(&mut canon, n);
    if !crate::text::bytes_eq(canon.as_slice(), b) {
        proof {
            assert(canon@ =~= decimal_bytes(n as nat));
        }
        return Err(ArchiveError::NoncanonicalDecimal);
    }
    Ok(n)
}

/// A prefix of all-digit text never exceeds the value of a longer prefix.
proof fn lemma_prefix_value_bound(d: Seq<u8>, k: int)
    requires
        0 <= k <= d.len(),
        all_digits(d),
    ensures
        digits_value(d.take(k)) <= digits_value(d),
    decreases d.len() - k,
{
    if k < d.len() {
        lemma_prefix_value_bound(d, k + 1);
        assert(d.take(k + 1).drop_last() =~= d.take(k));
        assert(48 <= d[k] <= 57);
    } else {
        assert(d.take(k) =~= d);
    }
}

/// One line of a file target's record index.
#[derive(Clone, Debug)]
pub enum IndexEntry {
    Record { epoch: String, seq: u64, record_sha256: String, offset: u64, length: u64 },
    Gap { gap: Gap, advances: bool },
}

/// An ASCII hexadecimal digit, of either case.
pub open spec fn ascii_hex(b: u8) -> bool {
    ||| 48 <= b <= 57
    ||| 65 <= b <= 70
    ||| 97 <= b <= 102
}

/// A digest text: 64 hexadecimal ASCII digits.
pub open spec fn digest_text(h: Seq<char>) -> bool {
    let b = encode_utf8(h);
    b.len() == 64 && forall|i: int| 0 <= i < b.len() ==> ascii_hex(#[trigger] b[i])
}

/// Replays index entries from `i` on for `stream` in `epoch`, starting at cursor
/// `next`, data offset `offset` and `gaps` recorded gaps: each record entry must
/// continue the cursor and the offsets, each gap entry must cover the cursor.
/// Returns the cursor, offset and gap count after the last entry.
pub open spec fn replay_from(
    stream: Seq<char>,
    epoch: Seq<char>,
    es: Seq<IndexEntry>,
    i: int,
    next: u64,
    offset: u64,
    gaps: u64,
) -> Result<(u64, u64, u64), ArchiveError>
    decreases es.len() - i,
{
    if i < 0 || i >= es.len() {
        Ok((next, offset, gaps))
    } else {
        match es[i] {
            IndexEntry::Record { epoch: e, seq, record_sha256, offset: o, length } => {
                if e@ != epoch || seq != next || o != offset || !digest_text(record_sha256@) {
                    Err(ArchiveError::IndexInconsistent)
                } else if seq == u64::MAX || offset + length > u64::MAX {
                    Err(ArchiveError::IndexOverflow)
                } else {
                    replay_from(stream, epoch, es, i + 1, (seq + 1) as u64, (offset + length) as u64, gaps)
                }
            },
            IndexEntry::Gap { gap, advances } => {
                if gap.stream@ != stream || gap.epoch@ != epoch || gap.from > next || gap.to < gap.from {
                    Err(ArchiveError::IndexGapInvalid)
                } else if advances && gap.to == u64::MAX {
                    Err(ArchiveError::IndexOverflow)
                } else {
                    let n = if advances && gap.to + 1 > next { (gap.to + 1) as u64 } else { next };
                    replay_from(stream, epoch, es, i + 1, n, offset, (gaps + 1) as u64)
                }
            },
        }
    }
}

/// Whether a text is 64 hexadecimal ASCII digits.
fn is_digest(h: &str) -> (b: bool)
    ensures
        b == digest_text(h@),
{
    let bytes = h.as_bytes();
    if bytes.len() != 64 {
        return false;
    }
    let mut i: usize = 0;
    while i < bytes.len()
        invariant
            i <= bytes@.len(),
            bytes@ == encode_utf8(h@),
            bytes@.len() == 64,
            forall|j: int| 0 <= j < i ==> ascii_hex(#[trigger] bytes@[j]),
        decreases bytes.len() - i,
    {
        let c = bytes[i];
        if !((48 <= c && c <= 57) || (65 <= c && c <= 70) || (97 <= c && c <= 102)) {
            return false;
        }
        i += 1;
    }
    true
}

/// Checks a file checkpoint against its record index: the replayed cursor,
/// data length and gap count must equal the checkpoint's, and the checkpoint is
/// incomplete exactly when a gap was recorded.
pub fn check_index(checkpoint: &FileCheckpoint, entries: &Vec<IndexEntry>) -> (r: Result<(), ArchiveError>)
    requires
        entries@.len() < u64::MAX,
    ensures
        match replay_from(checkpoint.stream@, checkpoint.initial.epoch@, entries@, 0, checkpoint.initial.next, 0, 0) {
            Err(e) => r == Err::<(), ArchiveError>(e),
            Ok((next, offset, gaps)) => if checkpoint.cursor.epoch@ != checkpoint.initial.epoch@ || checkpoint.cursor.next != next
                || offset != checkpoint.confirmed_len || gaps != checkpoint.gap_count || checkpoint.incomplete != (gaps > 0) {
                r == Err::<(), ArchiveError>(ArchiveError::CheckpointDisagrees)
            } else {
                r is Ok
            },
        },
{
    let ghost stream = checkpoint.stream@;
    let ghost epoch = checkpoint.initial.epoch@;
    let mut next = checkpoint.initial.next;
    let mut offset: u64 = 0;
    let mut gaps: u64 = 0;
    let mut i: usize = 0;
    while i < entries.len()
        invariant
            i <= entries@.len() < u64::MAX,
            stream == checkpoint.stream@,
            epoch == checkpoint.initial.epoch@,
            gaps <= i,
            replay_from(stream, epoch, entries@, 0, checkpoint.initial.next, 0, 0)
                == replay_from(stream, epoch, entries@, i as int, next, offset, gaps),
        decreases entries.len() - i,
    {
        match &entries[i] {
            IndexEntry::Record { epoch: e, seq, record_sha256, offset: o, length } => {
                if !text_eq(e.as_str(), checkpoint.initial.epoch.as_str()) || *seq != next || *o != offset
                    || !is_digest(record_sha256.as_str()) {
                    return Err(ArchiveError::IndexInconsistent);
                }
                if *seq == u64::MAX || *length > u64::MAX - offset {
                    return Err(ArchiveError::IndexOverflow);
                }
                next = *seq + 1;
                offset = offset + *length;
            },
            IndexEntry::Gap { gap, advances } => {
                if !text_eq(gap.stream.as_str(), checkpoint.stream.as_str()) || !text_eq(gap.epoch.as_str(), checkpoint.initial.epoch.as_str())
                    || gap.from > next || gap.to < gap.from {
                    return Err(ArchiveError::IndexGapInvalid);
                }
                if *advances && gap.to == u64::MAX {
                    return Err(ArchiveError::IndexOverflow);
                }
                if *advances && gap.to + 1 > next {
                    next = gap.to + 1;
                }
                gaps = gaps + 1;
            },
        }
        i += 1;
    }
    if !text_eq(checkpoint.cursor.epoch.as_str(), checkpoint.initial.epoch.as_str()) || checkpoint.cursor.next != next
        || offset != checkpoint.confirmed_len || gaps != checkpoint.gap_count || checkpoint.incomplete != (gaps > 0) {
        return Err(ArchiveError::CheckpointDisagrees);
    }
    Ok(())
}

/// A checkpoint read on resume belongs to this archive, configuration and
/// stream, has the current schema, and its cursor is a consistent progression
/// of its initial cursor.
pub open spec fn checkpoint_belongs(cp: FileCheckpoint, archive_id: Seq<char>, config_digest: Seq<char>, stream: Seq<char>) -> bool {
    &&& cp.schema_version == SCHEMA_VERSION
    &&& cp.archive_id@ == archive_id
    &&& cp.config_digest@ == config_digest
    &&& cp.stream@ == stream
    &&& cp.cursor.epoch@ == cp.initial.epoch@
    &&& cp.cursor.next >= cp.initial.next
    &&& cp.initial.next != 0
}

/// Whether a checkpoint read on resume may be used.
pub fn checkpoint_matches(cp: &FileCheckpoint, archive_id: &str, config_digest: &str, stream: &str) -> (b: bool)
    ensures
        b == checkpoint_belongs(*cp, archive_id@, config_digest@, stream@),
{
    cp.schema_version == SCHEMA_VERSION
        && text_eq(cp.archive_id.as_str(), archive_id)
        && text_eq(cp.config_digest.as_str(), config_digest)
        && text_eq(cp.stream.as_str(), stream)
        && text_eq(cp.cursor.epoch.as_str(), cp.initial.epoch.as_str())
        && cp.cursor.next >= cp.initial.next
        && cp.initial.next != 0
}

/// The cursor of `stream` among `(stream, cursor)` pairs, the first one.
pub open spec fn cursor_of(m: Seq<(String, Cursor)>, stream: Seq<char>) -> Option<Cursor>
    decreases m.len(),
{
    if m.len() == 0 {
        None
    } else if m[0].0@ == stream {
        Some(m[0].1)
    } else {
        cursor_of(m.drop_first(), stream)
    }
}

/// Initial cursors for a new archive: exactly the configured streams, each
/// with a nonempty epoch and a nonzero next sequence.
pub open spec fn initial_ok(streams: Seq<Seq<char>>, initial: Seq<(String, Cursor)>) -> bool {
    &&& forall|i: int| 0 <= i < initial.len() ==> streams.contains(#[trigger] initial[i].0@)
    &&& forall|i: int| 0 <= i < streams.len() ==> cursor_of(initial, #[trigger] streams[i]) is Some
    &&& forall|i: int| 0 <= i < initial.len() ==> (#[trigger] initial[i]).1.epoch@.len() > 0 && initial[i].1.next != 0
}

proof fn lemma_cursor_of(m: Seq<(String, Cursor)>, stream: Seq<char>)
    ensures
        cursor_of(m, stream) is Some <==> exists|i: int| 0 <= i < m.len() && #[trigger] m[i].0@ == stream,
    decreases m.len(),
{
    if m.len() > 0 {
        lemma_cursor_of(m.drop_first(), stream);
        if m[0].0@ != stream {
            assert forall|i: int| 0 <= i < m.len() && #[trigger] m[i].0@ == stream implies
                exists|j: int| 0 <= j < m.drop_first().len() && m.drop_first()[j].0@ == stream by {
                assert(m.drop_first()[i - 1] == m[i]);
            }
            assert forall|j: int| 0 <= j < m.drop_first().len() && #[trigger] m.drop_first()[j].0@ == stream implies
                exists|i: int| 0 <= i < m.len() && m[i].0@ == stream by {
                assert(m.drop_first()[j] == m[j + 1]);
            }
        }
    }
}

/// Whether `initial` fits the configured `streams` for a new archive.
pub fn initial_cursors_ok(streams: &Vec<String>, initial: &Vec<(String, Cursor)>) -> (b: bool)
    ensures
        b == initial_ok(texts(streams@), initial@),
{
    let ghost sv = texts(streams@);
    let mut i: usize = 0;
    while i < initial.len()
        invariant
            i <= initial@.len(),
            sv == texts(streams@),
            forall|a: int| 0 <= a < i ==> sv.contains(#[trigger] initial@[a].0@),
            forall|a: int| 0 <= a < i ==> (#[trigger] initial@[a]).1.epoch@.len() > 0 && initial@[a].1.next != 0,
        decreases initial.len() - i,
    {
        if !contains_text(streams, initial[i].0.as_str()) || initial[i].1.epoch.as_str().is_empty() || initial[i].1.next == 0 {
            return false;
        }
        i += 1;
    }
    let mut j: usize = 0;
    while j < streams.len()
        invariant
            j <= sv.len(),
            sv == texts(streams@),
            forall|a: int| 0 <= a < initial@.len() ==> sv.contains(#[trigger] initial@[a].0@),
            forall|a: int| 0 <= a < initial@.len() ==> (#[trigger] initial@[a]).1.epoch@.len() > 0 && initial@[a].1.next != 0,
            forall|a: int| 0 <= a < j ==> cursor_of(initial@, #[trigger] sv[a]) is Some,
        decreases streams.len() - j,
    {
        let mut k: usize = 0;
        let mut found = false;
        while k < initial.len()
            invariant
                j < sv.len(),
                k <= initial@.len(),
                sv == texts(streams@),
                found == exists|a: int| 0 <= a < k && #[trigger] initial@[a].0@ == sv[j as int],
            decreases initial.len() - k,
        {
            assert(sv[j as int] == streams@[j as int]@);
            if text_eq(initial[k].0.as_str(), streams[j].as_str()) {
                found = true;
            }
            k += 1;
        }
        proof {
            lemma_cursor_of(initial@, sv[j as int]);
        }
        if !found {
            return false;
        }
        j += 1;
    }
    true
}

/// One row of an archive's stored history, in stream and sequence order: a
/// record (`first == last`) or a gap that advanced the cursor.
#[derive(Clone, Debug)]
pub struct HistoryRow {
    pub stream: String,
    pub epoch: String,
    pub first: u64,
    pub last: u64,
    /// For a record: the SHA-256 of the record as read back, and the one stored with it.
    pub hashes: Option<(String, String)>,
}

/// One stored gap, as kept beside the history.
#[derive(Clone, Debug)]
pub struct GapRow {
    pub stream: String,
    pub epoch: String,
    pub first: u64,
    pub last: u64,
    pub advances: i64,
    pub coverage: u64,
}

/// The cursors of a stream map as (stream, epoch, next).
pub open spec fn cursor_views(m: Seq<(String, Cursor)>) -> Seq<(Seq<char>, Seq<char>, u64)> {
    m.map_values(|e: (String, Cursor)| (e.0@, e.1.epoch@, e.1.next))
}

/// The first position of stream `s` among the cursors.
#[verifier::opaque]
pub open spec fn cursor_index(m: Seq<(Seq<char>, Seq<char>, u64)>, s: Seq<char>) -> Option<int> {
    if exists|k: int| 0 <= k < m.len() && (#[trigger] m[k]).0 == s {
        Some(choose|k: int| 0 <= k < m.len() && (#[trigger] m[k]).0 == s && forall|j: int| 0 <= j < k ==> m[j].0 != s)
    } else {
        None
    }
}

/// Replays the history rows from `i` on over the cursors `m`: each row must
/// continue its stream's cursor in the same epoch, and a record must still
/// have its stored hash.
#[verifier::opaque]
pub open spec fn replay_history(m: Seq<(Seq<char>, Seq<char>, u64)>, rows: Seq<HistoryRow>, i: int) -> Result<
    Seq<(Seq<char>, Seq<char>, u64)>,
    ArchiveError,
>
    decreases rows.len() - i,
{
    if i < 0 || i >= rows.len() {
        Ok(m)
    } else {
        let row = rows[i];
        match cursor_index(m, row.stream@) {
            None => Err(ArchiveError::UnknownStream),
            Some(k) => if row.epoch@ != m[k].1 || row.first != m[k].2 || row.last < row.first {
                Err(ArchiveError::HistoryDiscontinuous)
            } else if row.hashes matches Some(h) && h.0@ != h.1@ {
                Err(ArchiveError::RecordChanged)
            } else if row.last == u64::MAX {
                Err(ArchiveError::HistoryOverflow)
            } else {
                replay_history(m.update(k, (m[k].0, m[k].1, (row.last + 1) as u64)), rows, i + 1)
            },
        }
    }
}

/// One replay step: the row at `i` either refuses the replay or moves its cursor.
proof fn lemma_replay_step(m: Seq<(Seq<char>, Seq<char>, u64)>, rows: Seq<HistoryRow>, i: int)
    requires
        0 <= i < rows.len(),
    ensures
        replay_history(m, rows, i) == match cursor_index(m, rows[i].stream@) {
            None => Err(ArchiveError::UnknownStream),
            Some(k) => if rows[i].epoch@ != m[k].1 || rows[i].first != m[k].2 || rows[i].last < rows[i].first {
                Err(ArchiveError::HistoryDiscontinuous)
            } else if rows[i].hashes matches Some(h) && h.0@ != h.1@ {
                Err(ArchiveError::RecordChanged)
            } else if rows[i].last == u64::MAX {
                Err(ArchiveError::HistoryOverflow)
            } else {
                replay_history(m.update(k, (m[k].0, m[k].1, (rows[i].last + 1) as u64)), rows, i + 1)
            },
        },
{
    reveal_with_fuel(replay_history, 1);
}

/// Past the last row the replay ends with the cursors as they are.
proof fn lemma_replay_end(m: Seq<(Seq<char>, Seq<char>, u64)>, rows: Seq<HistoryRow>, i: int)
    requires
        i == rows.len(),
    ensures
        replay_history(m, rows, i) == Ok::<Seq<(Seq<char>, Seq<char>, u64)>, ArchiveError>(m),
{
    reveal_with_fuel(replay_history, 1);
}

/// Whether a stored gap is consistent with the confirmed cursors.
pub open spec fn gap_row_fault(confirmed: Seq<(Seq<char>, Seq<char>, u64)>, g: GapRow) -> Option<ArchiveError> {
    match cursor_index(confirmed, g.stream@) {
        None => Some(ArchiveError::UnknownStream),
        Some(k) => if g.epoch@ != confirmed[k].1 || g.last < g.first || g.first > g.coverage || g.coverage
            > confirmed[k].2 || !(0 <= g.advances <= 1) {
            Some(ArchiveError::GapMetadataInvalid)
        } else {
            None
        },
    }
}

/// The audit of an archive's stored history: replaying every row from the
/// initial cursors must end exactly at the confirmed cursors, and every stored
/// gap must lie within its stream's confirmed history.
pub open spec fn history_audit(
    initial: Seq<(Seq<char>, Seq<char>, u64)>,
    rows: Seq<HistoryRow>,
    confirmed: Seq<(Seq<char>, Seq<char>, u64)>,
    gaps: Seq<GapRow>,
) -> Result<(), ArchiveError> {
    match replay_history(initial, rows, 0) {
        Err(e) => Err(e),
        Ok(m) => if m != confirmed {
            Err(ArchiveError::CheckpointDisagrees)
        } else if exists|g: int| 0 <= g < gaps.len() && gap_row_fault(confirmed, #[trigger] gaps[g]) is Some {
            Err(gap_row_fault(
                confirmed,
                gaps[choose|g: int|
                    0 <= g < gaps.len() && gap_row_fault(confirmed, #[trigger] gaps[g]) is Some && forall|j: int|
                        0 <= j < g ==> gap_row_fault(confirmed, gaps[j]) is None],
            )->0)
        } else {
            Ok(())
        },
    }
}

/// The first position of stream `s` among the cursors.
fn find_cursor(m: &Vec<(String, Cursor)>, s: &str) -> (o: Option<usize>)
    ensures
        match o {
            Some(k) => k < m@.len() && cursor_index(cursor_views(m@), s@) == Some(k as int),
            None => cursor_index(cursor_views(m@), s@) is None,
        },
{
    let ghost v = cursor_views(m@);
    let mut k: usize = 0;
    while k < m.len()
        invariant
            k <= m@.len(),
            v == cursor_views(m@),
            forall|j: int| 0 <= j < k ==> (#[trigger] v[j]).0 != s@,
        decreases m@.len() - k,
    {
        if text_eq(m[k].0.as_str(), s) {
            proof {
                reveal(cursor_index);
                assert(v[k as int].0 == s@);
                assert(0 <= k < v.len() && (#[trigger] v[k as int]).0 == s@ && forall|j: int| 0 <= j < k ==> v[j].0 != s@);
                let c = choose|c: int| 0 <= c < v.len() && (#[trigger] v[c]).0 == s@ && forall|j: int| 0 <= j < c ==> v[j].0 != s@;
                if c < k {
                    assert(v[c].0 != s@);
                } else if c > k {
                    assert(v[k as int].0 != s@);
                }
            }
            return Some(k);
        }
        assert(v[k as int].0 != s@);
        k += 1;
    }
    proof {
        reveal(cursor_index);
    }
    None
}

/// A copy of a cursor map.
fn copy_cursors(v: &Vec<(String, Cursor)>) -> (c: Vec<(String, Cursor)>)
    ensures
        cursor_views(c@) == cursor_views(v@),
{
    let mut c: Vec<(String, Cursor)> = Vec::new();
    let mut i: usize = 0;
    while i < v.len()
        invariant
            i <= v@.len(),
            cursor_views(c@) == cursor_views(v@).take(i as int),
        decreases v@.len() - i,
    {
        let ghost before = c@;
        c.push((v[i].0.clone(), Cursor { epoch: v[i].1.epoch.clone(), next: v[i].1.next }));
        assert(cursor_views(c@) =~= cursor_views(before).push(cursor_views(v@)[i as int]));
        assert(cursor_views(v@).take(i + 1) =~= cursor_views(v@).take(i as int).push(cursor_views(v@)[i as int]));
        i += 1;
    }
    assert(cursor_views(v@).take(i as int) =~= cursor_views(v@));
    c
}

/// Whether two cursor maps hold the same streams, epochs and positions in the same order.
fn cursors_equal(a: &Vec<(String, Cursor)>, b: &Vec<(String, Cursor)>) -> (r: bool)
    ensures
        r == (cursor_views(a@) == cursor_views(b@)),
{
    if a.len() != b.len() {
        proof {
            assert(cursor_views(a@).len() != cursor_views(b@).len());
        }
        return false;
    }
    let mut i: usize = 0;
    while i < a.len()
        invariant
            i <= a@.len(),
            a@.len() == b@.len(),
            forall|j: int| 0 <= j < i ==> #[trigger] cursor_views(a@)[j] == cursor_views(b@)[j],
        decreases a@.len() - i,
    {
        if !text_eq(a[i].0.as_str(), b[i].0.as_str()) || !text_eq(a[i].1.epoch.as_str(), b[i].1.epoch.as_str())
            || a[i].1.next != b[i].1.next {
            proof {
                assert(cursor_views(a@)[i as int] != cursor_views(b@)[i as int]);
            }
            return false;
        }
        assert(cursor_views(a@)[i as int] == cursor_views(b@)[i as int]);
        i += 1;
    }
    assert(cursor_views(a@) =~= cursor_views(b@));
    true
}

/// Audits an archive's stored history against its initial and confirmed
/// cursors and checks every stored gap.
pub fn audit_history(
    initial: &Vec<(String, Cursor)>,
    rows: &Vec<HistoryRow>,
    confirmed: &Vec<(String, Cursor)>,
    gaps: &Vec<GapRow>,
) -> (r: Result<(), ArchiveError>)
    ensures
        r == history_audit(cursor_views(initial@), rows@, cursor_views(confirmed@), gaps@),
{
    let mut m = copy_cursors(initial);
    let mut i: usize = 0;
    while i < rows.len()
        invariant
            i <= rows@.len(),
            replay_history(cursor_views(initial@), rows@, 0) == replay_history(cursor_views(m@), rows@, i as int),
        decreases rows@.len() - i,
    {
        let row = &rows[i];
        proof {
            lemma_replay_step(cursor_views(m@), rows@, i as int);
        }
        let k = match find_cursor(&m, row.stream.as_str()) {
            None => {
                return Err(ArchiveError::UnknownStream);
            },
            Some(k) => k,
        };
        let ghost v = cursor_views(m@);
        if !text_eq(row.epoch.as_str(), m[k].1.epoch.as_str()) || row.first != m[k].1.next || row.last < row.first {
            return Err(ArchiveError::HistoryDiscontinuous);
        }
        match &row.hashes {
            Some(h) => {
                if !text_eq(h.0.as_str(), h.1.as_str()) {
                    return Err(ArchiveError::RecordChanged);
                }
            },
            None => {},
        }
        if row.last == u64::MAX {
            return Err(ArchiveError::HistoryOverflow);
        }
        let name = m[k].0.clone();
        let epoch = m[k].1.epoch.clone();
        m.set(k, (name, Cursor { epoch, next: row.last + 1 }));
        assert(cursor_views(m@) =~= v.update(k as int, (v[k as int].0, v[k as int].1, (row.last + 1) as u64)));
        i += 1;
    }
    proof {
        lemma_replay_end(cursor_views(m@), rows@, i as int);
    }
    if !cursors_equal(&m, confirmed) {
        return Err(ArchiveError::CheckpointDisagrees);
    }
    let ghost c = cursor_views(confirmed@);
    let mut g: usize = 0;
    while g < gaps.len()
        invariant
            g <= gaps@.len(),
            c == cursor_views(confirmed@),
            replay_history(cursor_views(initial@), rows@, 0) == Ok::<Seq<(Seq<char>, Seq<char>, u64)>, ArchiveError>(c),
            forall|j: int| 0 <= j < g ==> gap_row_fault(c, #[trigger] gaps@[j]) is None,
        decreases gaps@.len() - g,
    {
        let gap = &gaps[g];
        let fault = match find_cursor(confirmed, gap.stream.as_str()) {
            None => Some(ArchiveError::UnknownStream),
            Some(k) => if !text_eq(gap.epoch.as_str(), confirmed[k].1.epoch.as_str()) || gap.last < gap.first
                || gap.first > gap.coverage || gap.coverage > confirmed[k].1.next || gap.advances < 0
                || gap.advances > 1 {
                Some(ArchiveError::GapMetadataInvalid)
            } else {
                None
            },
        };
        assert(fault == gap_row_fault(c, gaps@[g as int]));
        if let Some(e) = fault {
            proof {
                let w = g as int;
                assert(gap_row_fault(c, gaps@[w]) is Some);
                let pick = choose|x: int|
                    0 <= x < gaps@.len() && gap_row_fault(c, #[trigger] gaps@[x]) is Some && forall|j: int|
                        0 <= j < x ==> gap_row_fault(c, gaps@[j]) is None;
                if pick < w {
                } else if pick > w {
                    assert(gap_row_fault(c, gaps@[w]) is None);
                }
            }
            return Err(e);
        }
        g += 1;
    }
    Ok(())
}

/// A stored record as the history audit reads it: its sequence text must be a
/// canonical `u64`, and the row pairs the SHA-256 of the record's bytes as read
/// back (`record_bytes`, the record encoded as it was when stored) with the
/// hash stored beside it.
pub fn history_row(stream: &str, epoch: &str, seq_text: &str, record_bytes: &[u8], stored_hash: &str) -> (r: Result<HistoryRow, ArchiveError>)
    ensures
        r is Ok <==> unsigned_text(seq_text@) is Ok,
        r matches Err(e) ==> unsigned_text(seq_text@) == Err::<u64, ArchiveError>(e),
        r matches Ok(row) ==> {
            &&& unsigned_text(seq_text@) == Ok::<u64, ArchiveError>(row.first)
            &&& row.last == row.first
            &&& row.stream@ == stream@
            &&& row.epoch@ == epoch@
            &&& row.hashes matches Some(h) && h.0@ == sha256_hex(record_bytes@) && h.1@ == stored_hash@
        },
{
    let n = match unsigned(seq_text) {
        Err(e) => return Err(e),
        Ok(n) => n,
    };
    let h = hex_hash(record_bytes);
    Ok(HistoryRow {
        stream: stream.to_owned(),
        epoch: epoch.to_owned(),
        first: n,
        last: n,
        hashes: Some((h, stored_hash.to_owned())),
    })
}

/// A stored gap that advanced its stream, as the history audit reads it: both
/// bounds must be canonical `u64` texts, the first one checked first.
pub fn gap_history_row(stream: &str, epoch: &str, first_text: &str, last_text: &str) -> (r: Result<HistoryRow, ArchiveError>)
    ensures
        match (unsigned_text(first_text@), unsigned_text(last_text@)) {
            (Err(e), _) => r == Err::<HistoryRow, ArchiveError>(e),
            (Ok(_), Err(e)) => r == Err::<HistoryRow, ArchiveError>(e),
            (Ok(a), Ok(b)) => r matches Ok(row) && row.first == a && row.last == b && row.stream@ == stream@
                && row.epoch@ == epoch@ && row.hashes is None,
        },
{
    let a = match unsigned(first_text) {
        Err(e) => return Err(e),
        Ok(a) => a,
    };
    let b = match unsigned(last_text) {
        Err(e) => return Err(e),
        Ok(b) => b,
    };
    Ok(HistoryRow { stream: stream.to_owned(), epoch: epoch.to_owned(), first: a, last: b, hashes: None })
}

/// A replay from row `j` that reaches a record whose read-back hash differs
/// from its stored one fails.
proof fn lemma_replay_fails_at_changed(m: Seq<(Seq<char>, Seq<char>, u64)>, rows: Seq<HistoryRow>, j: int, i: int)
    requires
        0 <= j <= i < rows.len(),
        rows[i].hashes matches Some(h) && h.0@ != h.1@,
    ensures
        replay_history(m, rows, j) is Err,
    decreases i - j,
{
    lemma_replay_step(m, rows, j);
    match cursor_index(m, rows[j].stream@) {
        None => {},
        Some(k) => {
            if !(rows[j].epoch@ != m[k].1 || rows[j].first != m[k].2 || rows[j].last < rows[j].first)
                && !(rows[j].hashes matches Some(h) && h.0@ != h.1@) && rows[j].last != u64::MAX {
                lemma_replay_fails_at_changed(m.update(k, (m[k].0, m[k].1, (rows[j].last + 1) as u64)), rows, j + 1, i);
            }
        },
    }
}

/// An archive whose stored history holds a record that no longer hashes to
/// its stored hash fails the audit, whatever the cursors and gaps.
pub proof fn lemma_changed_record_fails_audit(
    initial: Seq<(Seq<char>, Seq<char>, u64)>,
    rows: Seq<HistoryRow>,
    confirmed: Seq<(Seq<char>, Seq<char>, u64)>,
    gaps: Seq<GapRow>,
    i: int,
)
    requires
        0 <= i < rows.len(),
        rows[i].hashes matches Some(h) && h.0@ != h.1@,
    ensures
        history_audit(initial, rows, confirmed, gaps) is Err,
{
    lemma_replay_fails_at_changed(initial, rows, 0, i);
}

/// Whether a file target's confirmed prefixes still hold what its checkpoint
/// confirmed: the data file's and the index file's first `confirmed_len` and
/// `index_len` bytes, as far as they could be read, with their SHA-256.
pub open spec fn prefixes_fault(cp: FileCheckpoint, data_prefix: Seq<u8>, index_prefix: Seq<u8>) -> Option<ArchiveError> {
    if data_prefix.len() != cp.confirmed_len || index_prefix.len() != cp.index_len {
        Some(ArchiveError::ArchiveShorter)
    } else if sha256_hex(data_prefix) != cp.confirmed_sha256@ || sha256_hex(index_prefix) != cp.index_sha256@ {
        Some(ArchiveError::ConfirmedContentChanged)
    } else {
        None
    }
}

/// Checks a file target's confirmed data and index prefixes against its
/// checkpoint before anything is truncated: a file shorter than its confirmed
/// length, or a prefix whose digest differs, is refused.
pub fn confirmed_prefixes_match(cp: &FileCheckpoint, data_prefix: &[u8], index_prefix: &[u8]) -> (r: Result<(), ArchiveError>)
    ensures
        r is Ok <==> (data_prefix@.len() == cp.confirmed_len && index_prefix@.len() == cp.index_len
            && sha256_hex(data_prefix@) == cp.confirmed_sha256@ && sha256_hex(index_prefix@) == cp.index_sha256@),
        match prefixes_fault(*cp, data_prefix@, index_prefix@) {
            Some(e) => r == Err::<(), ArchiveError>(e),
            None => r is Ok,
        },
{
    if data_prefix.len() as u64 != cp.confirmed_len || index_prefix.len() as u64 != cp.index_len {
        return Err(ArchiveError::ArchiveShorter);
    }
    let d = hex_hash(data_prefix);
    let x = hex_hash(index_prefix);
    if !text_eq(d.as_str(), cp.confirmed_sha256.as_str()) || !text_eq(x.as_str(), cp.index_sha256.as_str()) {
        return Err(ArchiveError::ConfirmedContentChanged);
    }
    Ok(())
}

/// The archived hash of the record (`epoch`, `seq`): the first index record entry with that identity.
pub open spec fn archived_hash(entries: Seq<IndexEntry>, epoch: Seq<char>, seq: u64) -> Option<Seq<char>>
    decreases entries.len(),
{
    if entries.len() == 0 {
        None
    } else {
        match entries[0] {
            IndexEntry::Record { epoch: e, seq: s, record_sha256: h, .. } => if s == seq && e@ == epoch {
                Some(h@)
            } else {
                archived_hash(entries.drop_first(), epoch, seq)
            },
            IndexEntry::Gap { .. } => archived_hash(entries.drop_first(), epoch, seq),
        }
    }
}

/// A record delivered again must be in the archive's index with the same content hash.
pub fn check_duplicate(entries: &Vec<IndexEntry>, epoch: &str, seq: u64, record_sha256: &str) -> (r: Result<(), ArchiveError>)
    ensures
        r == match archived_hash(entries@, epoch@, seq) {
            None => Err(ArchiveError::DuplicateAbsent),
            Some(h) => if h == record_sha256@ {
                Ok(())
            } else {
                Err(ArchiveError::ConflictingDuplicate)
            },
        },
{
    let mut i: usize = 0;
    assert(entries@.skip(0) =~= entries@);
    while i < entries.len()
        invariant
            i <= entries@.len(),
            archived_hash(entries@, epoch@, seq) == archived_hash(entries@.skip(i as int), epoch@, seq),
        decreases entries@.len() - i,
    {
        let ghost rest = entries@.skip(i as int);
        assert(rest[0] == entries@[i as int]);
        assert(rest.drop_first() =~= entries@.skip(i + 1));
        match &entries[i] {
            IndexEntry::Record { epoch: e, seq: s, record_sha256: h, .. } => {
                if *s == seq && text_eq(e.as_str(), epoch) {
                    if text_eq(h.as_str(), record_sha256) {
                        return Ok(());
                    }
                    return Err(ArchiveError::ConflictingDuplicate);
                }
            },
            IndexEntry::Gap { .. } => {},
        }
        i += 1;
    }
    assert(entries@.skip(i as int).len() == 0);
    Err(ArchiveError::DuplicateAbsent)
}

/// The cursor of stream `s` in a cursor map: its first entry.
pub open spec fn lookup_cursor(v: Seq<(Seq<char>, Seq<char>, u64)>, s: Seq<char>) -> Option<(Seq<char>, u64)>
    decreases v.len(),
{
    if v.len() == 0 {
        None
    } else if v[0].0 == s {
        Some((v[0].1, v[0].2))
    } else {
        lookup_cursor(v.drop_first(), s)
    }
}

/// The position two targets have both confirmed for one stream: the file
/// target's epoch with the smaller next sequence; a stream only one target
/// archives keeps that target's cursor.
pub open spec fn common_cursor(f: Option<(Seq<char>, u64)>, q: Option<(Seq<char>, u64)>) -> Option<(Seq<char>, u64)> {
    match (f, q) {
        (Some(a), Some(b)) => Some((a.0, if b.1 < a.1 { b.1 } else { a.1 })),
        (Some(a), None) => Some(a),
        (None, Some(b)) => Some(b),
        (None, None) => None,
    }
}

/// Whether a cursor map names each stream once.
pub open spec fn distinct_streams(v: Seq<(String, Cursor)>) -> bool {
    forall|i: int, j: int| 0 <= i < j < v.len() ==> (#[trigger] v[i]).0@ != (#[trigger] v[j]).0@
}

proof fn lemma_lookup_first(v: Seq<(Seq<char>, Seq<char>, u64)>, k: int, s: Seq<char>)
    requires
        0 <= k < v.len(),
        v[k].0 == s,
        forall|j: int| 0 <= j < k ==> (#[trigger] v[j]).0 != s,
    ensures
        lookup_cursor(v, s) == Some((v[k].1, v[k].2)),
    decreases k,
{
    if k > 0 {
        let t = v.drop_first();
        assert forall|j: int| 0 <= j < k - 1 implies (#[trigger] t[j]).0 != s by {
            assert(t[j] == v[j + 1]);
        }
        assert(v[0].0 != s);
        lemma_lookup_first(t, k - 1, s);
    }
}

proof fn lemma_lookup_none(v: Seq<(Seq<char>, Seq<char>, u64)>, s: Seq<char>)
    requires
        forall|j: int| 0 <= j < v.len() ==> (#[trigger] v[j]).0 != s,
    ensures
        lookup_cursor(v, s) is None,
    decreases v.len(),
{
    if v.len() > 0 {
        let t = v.drop_first();
        assert forall|j: int| 0 <= j < t.len() implies (#[trigger] t[j]).0 != s by {
            assert(t[j] == v[j + 1]);
        }
        assert(v[0].0 != s);
        lemma_lookup_none(t, s);
    }
}

proof fn lemma_lookup_push(v: Seq<(Seq<char>, Seq<char>, u64)>, x: (Seq<char>, Seq<char>, u64), s: Seq<char>)
    ensures
        lookup_cursor(v.push(x), s) == (if lookup_cursor(v, s) is Some {
            lookup_cursor(v, s)
        } else if x.0 == s {
            Some((x.1, x.2))
        } else {
            None
        }),
    decreases v.len(),
{
    if v.len() > 0 {
        assert(v.push(x).drop_first() =~= v.drop_first().push(x));
        assert(v.push(x)[0] == v[0]);
        lemma_lookup_push(v.drop_first(), x, s);
    } else {
        assert(v.push(x)[0] == x);
        assert(v.push(x).drop_first().len() == 0);
        assert(lookup_cursor(v.push(x).drop_first(), s) is None);
    }
}

proof fn lemma_lookup_update(v: Seq<(Seq<char>, Seq<char>, u64)>, k: int, x: (Seq<char>, Seq<char>, u64), s: Seq<char>)
    requires
        0 <= k < v.len(),
        v[k].0 == x.0,
        forall|j: int| 0 <= j < k ==> (#[trigger] v[j]).0 != x.0,
    ensures
        lookup_cursor(v.update(k, x), s) == (if s == x.0 {
            Some((x.1, x.2))
        } else {
            lookup_cursor(v, s)
        }),
    decreases k,
{
    if k > 0 {
        let t = v.drop_first();
        assert(v.update(k, x).drop_first() =~= t.update(k - 1, x));
        assert forall|j: int| 0 <= j < k - 1 implies (#[trigger] t[j]).0 != x.0 by {
            assert(t[j] == v[j + 1]);
        }
        assert(v[0].0 != x.0);
        lemma_lookup_update(t, k - 1, x, s);
    } else {
        assert(v.update(k, x).drop_first() =~= v.drop_first());
    }
}

/// The first entry of stream `s` in a cursor map.
fn first_cursor(m: &Vec<(String, Cursor)>, s: &str) -> (o: Option<usize>)
    ensures
        match o {
            Some(k) => k < m@.len() && cursor_views(m@)[k as int].0 == s@ && forall|j: int|
                0 <= j < k ==> (#[trigger] cursor_views(m@)[j]).0 != s@,
            None => forall|j: int| 0 <= j < m@.len() ==> (#[trigger] cursor_views(m@)[j]).0 != s@,
        },
{
    let mut k: usize = 0;
    while k < m.len()
        invariant
            k <= m@.len(),
            forall|j: int| 0 <= j < k ==> (#[trigger] cursor_views(m@)[j]).0 != s@,
        decreases m@.len() - k,
    {
        if text_eq(m[k].0.as_str(), s) {
            return Some(k);
        }
        assert(cursor_views(m@)[k as int].0 != s@);
        k += 1;
    }
    None
}

/// The cursors both archive targets have confirmed: the file target's cursors,
/// lowered to the SQLite target's where it is behind, and the SQLite target's
/// for streams the file target does not archive.
pub fn common_cursors(file: &Vec<(String, Cursor)>, sqlite: &Vec<(String, Cursor)>) -> (r: Vec<(String, Cursor)>)
    requires
        distinct_streams(sqlite@),
    ensures
        forall|s: Seq<char>|
            #[trigger] lookup_cursor(cursor_views(r@), s) == common_cursor(
                lookup_cursor(cursor_views(file@), s),
                lookup_cursor(cursor_views(sqlite@), s),
            ),
{
    let mut r = copy_cursors(file);
    let mut j: usize = 0;
    proof {
        assert forall|s: Seq<char>| #[trigger] lookup_cursor(cursor_views(r@), s) == common_cursor(
            lookup_cursor(cursor_views(file@), s),
            lookup_cursor(cursor_views(sqlite@.take(0)), s),
        ) by {
            assert(cursor_views(sqlite@.take(0)).len() == 0);
            match lookup_cursor(cursor_views(file@), s) {
                Some(_) => {},
                None => {},
            }
        }
    }
    while j < sqlite.len()
        invariant
            j <= sqlite@.len(),
            distinct_streams(sqlite@),
            forall|s: Seq<char>|
                #[trigger] lookup_cursor(cursor_views(r@), s) == common_cursor(
                    lookup_cursor(cursor_views(file@), s),
                    lookup_cursor(cursor_views(sqlite@.take(j as int)), s),
                ),
        decreases sqlite@.len() - j,
    {
        let name = sqlite[j].0.as_str();
        let epoch = sqlite[j].1.epoch.clone();
        let next = sqlite[j].1.next;
        let ghost x = (name@, epoch@, next);
        let ghost before = cursor_views(r@);
        let ghost taken = cursor_views(sqlite@.take(j as int));
        proof {
            assert(cursor_views(sqlite@.take(j + 1)) =~= taken.push(x));
            assert forall|i: int| 0 <= i < taken.len() implies (#[trigger] taken[i]).0 != x.0 by {
                assert(taken[i].0 == sqlite@[i].0@);
                assert(sqlite@[i].0@ != sqlite@[j as int].0@);
            }
            lemma_lookup_none(taken, x.0);
        }
        match first_cursor(&r, name) {
            Some(k) => {
                let lower = if next < r[k].1.next {
                    next
                } else {
                    r[k].1.next
                };
                let kept = r[k].0.clone();
                let kept_epoch = r[k].1.epoch.clone();
                let ghost y = (before[k as int].0, before[k as int].1, lower);
                r.set(k, (kept, Cursor { epoch: kept_epoch, next: lower }));
                proof {
                    assert(cursor_views(r@) =~= before.update(k as int, y));
                    lemma_lookup_first(before, k as int, x.0);
                    assert forall|s: Seq<char>| #[trigger] lookup_cursor(cursor_views(r@), s) == common_cursor(
                        lookup_cursor(cursor_views(file@), s),
                        lookup_cursor(cursor_views(sqlite@.take(j + 1)), s),
                    ) by {
                        lemma_lookup_update(before, k as int, y, s);
                        lemma_lookup_push(taken, x, s);
                        assert(lookup_cursor(before, s) == common_cursor(
                            lookup_cursor(cursor_views(file@), s),
                            lookup_cursor(taken, s),
                        ));
                    }
                }
            },
            None => {
                let ghost_name = sqlite[j].0.clone();
                r.push((ghost_name, Cursor { epoch, next }));
                proof {
                    assert(cursor_views(r@) =~= before.push(x));
                    lemma_lookup_none(before, x.0);
                    assert forall|s: Seq<char>| #[trigger] lookup_cursor(cursor_views(r@), s) == common_cursor(
                        lookup_cursor(cursor_views(file@), s),
                        lookup_cursor(cursor_views(sqlite@.take(j + 1)), s),
                    ) by {
                        lemma_lookup_push(before, x, s);
                        lemma_lookup_push(taken, x, s);
                        assert(lookup_cursor(before, s) == common_cursor(
                            lookup_cursor(cursor_views(file@), s),
                            lookup_cursor(taken, s),
                        ));
                    }
                }
            },
        }
        j += 1;
    }
    proof {
        assert(sqlite@.take(j as int) =~= sqlite@);
    }
    r
}

/// Whether the file target's streams all appear in the SQLite target with the same epoch.
pub open spec fn targets_agree(file: Seq<(Seq<char>, Seq<char>, u64)>, sqlite: Seq<(Seq<char>, Seq<char>, u64)>) -> bool {
    forall|i: int|
        0 <= i < file.len() ==> (lookup_cursor(sqlite, (#[trigger] file[i]).0) matches Some(c) && c.0 == file[i].1)
}

/// Two targets of one archive must agree on every stream's epoch.
pub fn epochs_agree(file: &Vec<(String, Cursor)>, sqlite: &Vec<(String, Cursor)>) -> (b: bool)
    ensures
        b == targets_agree(cursor_views(file@), cursor_views(sqlite@)),
{
    let ghost f = cursor_views(file@);
    let ghost q = cursor_views(sqlite@);
    let mut i: usize = 0;
    while i < file.len()
        invariant
            i <= file@.len(),
            f == cursor_views(file@),
            q == cursor_views(sqlite@),
            forall|t: int| 0 <= t < i ==> (lookup_cursor(q, (#[trigger] f[t]).0) matches Some(c) && c.0 == f[t].1),
        decreases file@.len() - i,
    {
        match first_cursor(sqlite, file[i].0.as_str()) {
            None => {
                proof {
                    lemma_lookup_none(q, f[i as int].0);
                }
                return false;
            },
            Some(k) => {
                proof {
                    lemma_lookup_first(q, k as int, f[i as int].0);
                }
                if !text_eq(sqlite[k].1.epoch.as_str(), file[i].1.epoch.as_str()) {
                    return false;
                }
            },
        }
        i += 1;
    }
    true
}

/// `a + b` clamped to the `usize` range.
pub open spec fn saturating_sum(a: usize, b: usize) -> usize {
    if a + b > usize::MAX {
        usize::MAX
    } else {
        (a + b) as usize
    }
}

/// The records written since the last commit: how many, their bytes, and
/// whether a batch is open (its age is measured by the caller from its start).
#[derive(Clone, Copy, Debug, PartialEq, Eq)]
pub struct CommitBatch {
    pub count: usize,
    pub bytes: usize,
    pub open: bool,
}

impl CommitBatch {
    /// No batch open.
    pub fn new() -> (b: CommitBatch)
        ensures
            b == (CommitBatch { count: 0, bytes: 0, open: false }),
    {
        CommitBatch { count: 0, bytes: 0, open: false }
    }

    /// Whether the open batch must be committed before a record of `n` bytes
    /// joins it: a non-empty batch never grows past the byte budget.
    pub fn commit_before(&self, n: usize, policy: &CommitConfig) -> (b: bool)
        ensures
            b == (self.count > 0 && saturating_sum(self.bytes, n) > policy.max_bytes),
    {
        let total = if self.bytes > usize::MAX - n {
            usize::MAX
        } else {
            self.bytes + n
        };
        self.count > 0 && total > policy.max_bytes
    }

    /// Counts a written record of `n` bytes in a batch that is `age_ms` old;
    /// says whether the batch is now due: enough records, enough bytes, or old enough.
    pub fn written(&mut self, n: usize, age_ms: u64, policy: &CommitConfig) -> (due: bool)
        requires
            old(self).count < usize::MAX,
        ensures
            final(self).count == old(self).count + 1,
            final(self).bytes == saturating_sum(old(self).bytes, n),
            final(self).open,
            due == (final(self).count >= policy.max_records || final(self).bytes >= policy.max_bytes || age_ms
                >= policy.max_delay_ms),
    {
        self.count = self.count + 1;
        self.bytes = if self.bytes > usize::MAX - n {
            usize::MAX
        } else {
            self.bytes + n
        };
        self.open = true;
        self.count >= policy.max_records || self.bytes >= policy.max_bytes || age_ms >= policy.max_delay_ms
    }

    /// After a commit no batch is open.
    pub fn committed(&mut self)
        ensures
            *final(self) == (CommitBatch { count: 0, bytes: 0, open: false }),
    {
        *self = CommitBatch::new();
    }
}


/// Whether an archive is still active, or stopped after a target's error: once
/// a step has failed, every later `accept`, `gap` and `commit` is refused.
pub struct ArchiveHealth {
    error: Option<String>,
}

impl ArchiveHealth {
    /// The error the archive stopped after, if any.
    pub closed spec fn spec_error(&self) -> Option<Seq<char>> {
        match self.error {
            Some(e) => Some(e@),
            None => None,
        }
    }

    /// An active archive.
    pub fn new() -> (h: ArchiveHealth)
        ensures
            h.spec_error() is None,
    {
        ArchiveHealth { error: None }
    }

    /// Allows a step: refused, naming the error, once the archive has failed.
    pub fn healthy(&self) -> (r: Result<(), String>)
        ensures
            match self.spec_error() {
                None => r is Ok,
                Some(e) => r matches Err(m) && m@ == "archive stopped after error: "@ + e,
            },
    {
        match &self.error {
            None => Ok(()),
            Some(e) => {
                let mut m = "archive stopped after error: ".to_owned();
                crate::text::append_str(&mut m, e.as_str());
                Err(m)
            },
        }
    }

    /// Records how a step allowed by `healthy` ended: its error stops the archive; the
    /// outcome is handed back as it was.
    pub fn settle<T>(&mut self, outcome: Result<T, String>) -> (r: Result<T, String>)
        requires
            old(self).spec_error() is None,
        ensures
            r == outcome,
            final(self).spec_error() == match outcome {
                Ok(_) => None,
                Err(e) => Some(e@),
            },
    {
        if let Err(e) = &outcome {
            self.error = Some(e.clone());
        }
        outcome
    }

    /// The archive's state as its status reports it: `failed` or `active`.
    pub fn state(&self) -> (s: &'static str)
        ensures
            s@ == if self.spec_error() is Some { "failed"@ } else { "active"@ },
    {
        if self.error.is_some() {
            "failed"
        } else {
            "active"
        }
    }
}

} // verus!
