//! The record that a stream carries and the fault vocabulary of the Core.
use vstd::prelude::*;
use crate::text::{bytes_eq, text_eq};

verus! {

/// One published record. `seq` is assigned by the stream in receive order.
#[derive(Clone, Debug, PartialEq, Eq)]
pub struct Record {
    pub stream: String,
    pub epoch: String,
    pub seq: u64,
    pub key: String,
    pub payload: Vec<u8>,
    pub source_ts_ns: Option<u64>,
    pub observed_ts_ns: u64,
    /// Parent stream id and the parent sequence this record derives from.
    pub upstream: Vec<(String, u64)>,
    /// Parent stream id and the parent's epoch at publication.
    pub upstream_epochs: Vec<(String, String)>,
    pub source_seq: Option<u64>,
    pub channel: Option<String>,
}

/// The mathematical content of a record.
pub struct RecordView {
    pub stream: Seq<char>,
    pub epoch: Seq<char>,
    pub seq: u64,
    pub key: Seq<char>,
    pub payload: Seq<u8>,
    pub source_ts_ns: Option<u64>,
    pub observed_ts_ns: u64,
    pub upstream: Seq<(Seq<char>, u64)>,
    pub upstream_epochs: Seq<(Seq<char>, Seq<char>)>,
    pub source_seq: Option<u64>,
    pub channel: Option<Seq<char>>,
}

pub open spec fn opt_text(o: Option<String>) -> Option<Seq<char>> {
    match o {
        Some(s) => Some(s@),
        None => None,
    }
}

pub open spec fn pairs_view(v: Seq<(String, u64)>) -> Seq<(Seq<char>, u64)> {
    v.map_values(|p: (String, u64)| (p.0@, p.1))
}

pub open spec fn text_pairs_view(v: Seq<(String, String)>) -> Seq<(Seq<char>, Seq<char>)> {
    v.map_values(|p: (String, String)| (p.0@, p.1@))
}

impl View for Record {
    type V = RecordView;

    open spec fn view(&self) -> RecordView {
        RecordView {
            stream: self.stream@,
            epoch: self.epoch@,
            seq: self.seq,
            key: self.key@,
            payload: self.payload@,
            source_ts_ns: self.source_ts_ns,
            observed_ts_ns: self.observed_ts_ns,
            upstream: pairs_view(self.upstream@),
            upstream_epochs: text_pairs_view(self.upstream_epochs@),
            source_seq: self.source_seq,
            channel: opt_text(self.channel),
        }
    }
}

/// A copy of an optional text.
pub fn copy_opt_text(o: &Option<String>) -> (c: Option<String>)
    ensures
        c == *o,
{
    match o {
        Some(s) => Some(s.clone()),
        None => None,
    }
}

/// A copy of a list of (name, number) pairs.
pub fn copy_pairs(v: &Vec<(String, u64)>) -> (c: Vec<(String, u64)>)
    ensures
        c@ == v@,
{
    let mut c: Vec<(String, u64)> = Vec::new();
    let mut i: usize = 0;
    while i < v.len()
        invariant
            i <= v.len(),
            c@ == v@.take(i as int),
        decreases v.len() - i,
    {
        let name = v[i].0.clone();
        c.push((name, v[i].1));
        assert(v@.take(i as int + 1) =~= v@.take(i as int).push(v@[i as int]));
        i += 1;
    }
    assert(v@.take(v.len() as int) =~= v@);
    c
}

/// A copy of a list of (name, text) pairs.
pub fn copy_text_pairs(v: &Vec<(String, String)>) -> (c: Vec<(String, String)>)
    ensures
        c@ == v@,
{
    let mut c: Vec<(String, String)> = Vec::new();
    let mut i: usize = 0;
    while i < v.len()
        invariant
            i <= v.len(),
            c@ == v@.take(i as int),
        decreases v.len() - i,
    {
        let name = v[i].0.clone();
        let text = v[i].1.clone();
        c.push((name, text));
        assert(v@.take(i as int + 1) =~= v@.take(i as int).push(v@[i as int]));
        i += 1;
    }
    assert(v@.take(v.len() as int) =~= v@);
    c
}

/// A copy of a byte vector.
pub fn copy_bytes(v: &Vec<u8>) -> (c: Vec<u8>)
    ensures
        c@ == v@,
{
    let c = v.clone();
    assert(c@ =~= v@);
    c
}

impl Record {
    /// An independent copy with the same content.
    pub fn duplicate(&self) -> (r: Record)
        ensures
            r@ == self@,
    {
        Record {
            stream: self.stream.clone(),
            epoch: self.epoch.clone(),
            seq: self.seq,
            key: self.key.clone(),
            payload: copy_bytes(&self.payload),
            source_ts_ns: self.source_ts_ns,
            observed_ts_ns: self.observed_ts_ns,
            upstream: copy_pairs(&self.upstream),
            upstream_epochs: copy_text_pairs(&self.upstream_epochs),
            source_seq: self.source_seq,
            channel: copy_opt_text(&self.channel),
        }
    }
}

/// Whether two lists of (name, number) pairs are equal.
pub fn pairs_eq(a: &Vec<(String, u64)>, b: &Vec<(String, u64)>) -> (r: bool)
    ensures
        r == (pairs_view(a@) == pairs_view(b@)),
{
    if a.len() != b.len() {
        proof {
            assert(pairs_view(a@).len() != pairs_view(b@).len());
        }
        return false;
    }
    let mut i: usize = 0;
    while i < a.len()
        invariant
            i <= a@.len(),
            a@.len() == b@.len(),
            forall|j: int| 0 <= j < i ==> #[trigger] pairs_view(a@)[j] == pairs_view(b@)[j],
        decreases a.len() - i,
    {
        if !text_eq(a[i].0.as_str(), b[i].0.as_str()) || a[i].1 != b[i].1 {
            proof {
                assert(pairs_view(a@)[i as int] != pairs_view(b@)[i as int]);
            }
            return false;
        }
        assert(pairs_view(a@)[i as int] == pairs_view(b@)[i as int]);
        i += 1;
    }
    assert(pairs_view(a@) =~= pairs_view(b@));
    true
}

/// Whether two lists of (name, text) pairs are equal.
pub fn text_pairs_eq(a: &Vec<(String, String)>, b: &Vec<(String, String)>) -> (r: bool)
    ensures
        r == (text_pairs_view(a@) == text_pairs_view(b@)),
{
    if a.len() != b.len() {
        proof {
            assert(text_pairs_view(a@).len() != text_pairs_view(b@).len());
        }
        return false;
    }
    let mut i: usize = 0;
    while i < a.len()
        invariant
            i <= a@.len(),
            a@.len() == b@.len(),
            forall|j: int| 0 <= j < i ==> #[trigger] text_pairs_view(a@)[j] == text_pairs_view(b@)[j],
        decreases a.len() - i,
    {
        if !text_eq(a[i].0.as_str(), b[i].0.as_str()) || !text_eq(a[i].1.as_str(), b[i].1.as_str()) {
            proof {
                assert(text_pairs_view(a@)[i as int] != text_pairs_view(b@)[i as int]);
            }
            return false;
        }
        assert(text_pairs_view(a@)[i as int] == text_pairs_view(b@)[i as int]);
        i += 1;
    }
    assert(text_pairs_view(a@) =~= text_pairs_view(b@));
    true
}

/// Whether two optional texts are equal.
fn opt_text_eq(a: &Option<String>, b: &Option<String>) -> (r: bool)
    ensures
        r == (opt_text(*a) == opt_text(*b)),
{
    match (a, b) {
        (Some(x), Some(y)) => text_eq(x.as_str(), y.as_str()),
        (None, None) => true,
        _ => false,
    }
}

impl Record {
    /// Whether two records have the same content.
    pub fn same(&self, other: &Record) -> (b: bool)
        ensures
            b == (self@ == other@),
    {
        text_eq(self.stream.as_str(), other.stream.as_str()) && text_eq(self.epoch.as_str(), other.epoch.as_str())
            && self.seq == other.seq && text_eq(self.key.as_str(), other.key.as_str()) && bytes_eq(
            self.payload.as_slice(),
            other.payload.as_slice(),
        ) && self.source_ts_ns == other.source_ts_ns && self.observed_ts_ns == other.observed_ts_ns
            && pairs_eq(&self.upstream, &other.upstream) && text_pairs_eq(
            &self.upstream_epochs,
            &other.upstream_epochs,
        ) && self.source_seq == other.source_seq && opt_text_eq(&self.channel, &other.channel)
    }
}

/// Machine-readable rejection reasons of Core operations.
#[derive(Clone, Copy, Debug, PartialEq, Eq)]
pub enum FaultCode {
    Limit,
    UnknownStream,
    PermissionDenied,
    InvalidParents,
    InvalidParentCursor,
    CursorAhead,
    WriterOccupied,
    StreamExists,
    AlreadyConnected,
    StreamCycle,
    RestartRequired,
    UnsupportedOperation,
    InvalidRequest,
    VersionMismatch,
    AuthenticationFailed,
    Busy,
    NotConnected,
    ControlBusy,
    ControlTimeout,
    InvalidControl,
    KeyConflict,
    StorageBlocked,
    CommitUnknown,
    HistoryUnavailable,
    HistoryGap,
    EpochMismatch,
    NotSaved,
}

impl FaultCode {
    /// The wire spelling of the code.
    pub fn code(&self) -> (s: &'static str)
        ensures
            s@ == match self {
                FaultCode::Limit => "limit"@,
                FaultCode::UnknownStream => "unknown_stream"@,
                FaultCode::PermissionDenied => "permission_denied"@,
                FaultCode::InvalidParents => "invalid_parents"@,
                FaultCode::InvalidParentCursor => "invalid_parent_cursor"@,
                FaultCode::CursorAhead => "cursor_ahead"@,
                FaultCode::WriterOccupied => "writer_occupied"@,
                FaultCode::StreamExists => "stream_exists"@,
                FaultCode::AlreadyConnected => "already_connected"@,
                FaultCode::StreamCycle => "stream_cycle"@,
                FaultCode::RestartRequired => "restart_required"@,
                FaultCode::UnsupportedOperation => "unsupported_operation"@,
                FaultCode::InvalidRequest => "invalid_request"@,
                FaultCode::VersionMismatch => "version_mismatch"@,
                FaultCode::AuthenticationFailed => "authentication_failed"@,
                FaultCode::Busy => "busy"@,
                FaultCode::NotConnected => "not_connected"@,
                FaultCode::ControlBusy => "control_busy"@,
                FaultCode::ControlTimeout => "control_timeout"@,
                FaultCode::InvalidControl => "invalid_control"@,
                FaultCode::KeyConflict => "key_conflict"@,
                FaultCode::StorageBlocked => "storage_blocked"@,
                FaultCode::CommitUnknown => "commit_unknown"@,
                FaultCode::HistoryUnavailable => "history_unavailable"@,
                FaultCode::HistoryGap => "history_gap"@,
                FaultCode::EpochMismatch => "epoch_mismatch"@,
                FaultCode::NotSaved => "not_saved"@,
            },
    {
        match self {
            FaultCode::Limit => "limit",
            FaultCode::UnknownStream => "unknown_stream",
            FaultCode::PermissionDenied => "permission_denied",
            FaultCode::InvalidParents => "invalid_parents",
            FaultCode::InvalidParentCursor => "invalid_parent_cursor",
            FaultCode::CursorAhead => "cursor_ahead",
            FaultCode::WriterOccupied => "writer_occupied",
            FaultCode::StreamExists => "stream_exists",
            FaultCode::AlreadyConnected => "already_connected",
            FaultCode::StreamCycle => "stream_cycle",
            FaultCode::RestartRequired => "restart_required",
            FaultCode::UnsupportedOperation => "unsupported_operation",
            FaultCode::InvalidRequest => "invalid_request",
            FaultCode::VersionMismatch => "version_mismatch",
            FaultCode::AuthenticationFailed => "authentication_failed",
            FaultCode::Busy => "busy",
            FaultCode::NotConnected => "not_connected",
            FaultCode::ControlBusy => "control_busy",
            FaultCode::ControlTimeout => "control_timeout",
            FaultCode::InvalidControl => "invalid_control",
            FaultCode::KeyConflict => "key_conflict",
            FaultCode::StorageBlocked => "storage_blocked",
            FaultCode::CommitUnknown => "commit_unknown",
            FaultCode::HistoryUnavailable => "history_unavailable",
            FaultCode::HistoryGap => "history_gap",
            FaultCode::EpochMismatch => "epoch_mismatch",
            FaultCode::NotSaved => "not_saved",
        }
    }
}

} // verus!
