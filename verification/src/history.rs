//! The checks that guard a stream's saved history: the save limits, the
//! segment catalog, each segment's identity and sequence run, the room a new
//! record needs, and each stored row's checksum. The files and the SQLite
//! queries stay outside; what they found arrives here as plain values.
use vstd::prelude::*;
use vstd::utf8::encode_utf8;
use crate::archive::{parse_u64, u64_text, hex_hash, sha256_hex};
use crate::text::{text_eq, append_str, append_decimal, decimal, push_char};

verus! {

/// Smallest segment file a saved stream may use, in bytes.
pub const MIN_FILE_BYTES: u64 = 262144;
/// Largest segment catalog that is read, in bytes.
pub const MAX_CATALOG_BYTES: u64 = 16777216;
/// SQLite page size of the history files.
pub const PAGE: u64 = 4096;

/// Why saved history cannot be opened, extended or read.
#[derive(Clone, Debug, PartialEq, Eq)]
pub enum HistoryError {
    FileBytesUnresolved,
    TotalBytesUnresolved,
    Limits,
    DirectoryMissing,
    CatalogTooLarge,
    CatalogIncomplete,
    CatalogMismatch,
    CatalogMissing,
    SegmentRenamed { index: u64 },
    Integrity { check: String },
    OwnerChanged,
    EpochMismatch,
    CatalogIdentity,
    HeadUnparsable,
    HeadMismatch,
    SequenceGap { at: u64 },
    CapExceeded,
    RecordTooLarge,
    TotalReached,
    TotalReserve,
    ChecksumMismatch,
}

/// The text of a history error.
pub open spec fn history_message(e: HistoryError) -> Seq<char> {
    match e {
        HistoryError::FileBytesUnresolved => "file_bytes not resolved"@,
        HistoryError::TotalBytesUnresolved => "total_bytes not resolved"@,
        HistoryError::Limits => "save limits require file_bytes >= 262144 and total_bytes >= 2 * file_bytes (journal reserve)"@,
        HistoryError::DirectoryMissing => "directory missing"@,
        HistoryError::CatalogTooLarge => "history catalog exceeds supported size"@,
        HistoryError::CatalogIncomplete => "history catalog is incomplete; manual recovery required"@,
        HistoryError::CatalogMismatch => "history segment catalog mismatch: files may be missing"@,
        HistoryError::CatalogMissing => "history catalog missing; refusing to reset a previously initialized stream"@,
        HistoryError::SegmentRenamed { index } => "history segment missing or renamed at index "@ + decimal(
            index as nat,
        ),
        HistoryError::Integrity { check } => "history integrity failure: "@ + check@,
        HistoryError::OwnerChanged => "saved stream owner/parents changed; use a new stream or storage directory"@,
        HistoryError::EpochMismatch => "history epoch mismatch"@,
        HistoryError::CatalogIdentity => "history catalog identity mismatch"@,
        HistoryError::HeadUnparsable => "history committed head is not a decimal number"@,
        HistoryError::HeadMismatch => "history committed head mismatch: records may have been deleted"@,
        HistoryError::SequenceGap { at } => "history sequence gap at "@ + decimal(at as nat),
        HistoryError::CapExceeded => "storage cap exceeded including journal reserve"@,
        HistoryError::RecordTooLarge => "record does not fit configured save file_bytes"@,
        HistoryError::TotalReached => "storage total_bytes limit reached; history is retained"@,
        HistoryError::TotalReserve => "storage total_bytes limit reached including journal reserve"@,
        HistoryError::ChecksumMismatch => "history record checksum mismatch"@,
    }
}

impl HistoryError {
    /// The text of the error.
    pub fn message(&self) -> (m: String)
        ensures
            m@ == history_message(*self),
    {
        let mut m = String::new();
        match self {
            HistoryError::FileBytesUnresolved => append_str(&mut m, "file_bytes not resolved"),
            HistoryError::TotalBytesUnresolved => append_str(&mut m, "total_bytes not resolved"),
            HistoryError::Limits => append_str(
                &mut m,
                "save limits require file_bytes >= 262144 and total_bytes >= 2 * file_bytes (journal reserve)",
            ),
            HistoryError::DirectoryMissing => append_str(&mut m, "directory missing"),
            HistoryError::CatalogTooLarge => append_str(&mut m, "history catalog exceeds supported size"),
            HistoryError::CatalogIncomplete => append_str(
                &mut m,
                "history catalog is incomplete; manual recovery required",
            ),
            HistoryError::CatalogMismatch => append_str(
                &mut m,
                "history segment catalog mismatch: files may be missing",
            ),
            HistoryError::CatalogMissing => append_str(
                &mut m,
                "history catalog missing; refusing to reset a previously initialized stream",
            ),
            HistoryError::SegmentRenamed { index } => {
                append_str(&mut m, "history segment missing or renamed at index ");
                append_decimal(&mut m, *index);
            },
            HistoryError::Integrity { check } => {
                append_str(&mut m, "history integrity failure: ");
                append_str(&mut m, check.as_str());
            },
            HistoryError::OwnerChanged => append_str(
                &mut m,
                "saved stream owner/parents changed; use a new stream or storage directory",
            ),
            HistoryError::EpochMismatch => append_str(&mut m, "history epoch mismatch"),
            HistoryError::CatalogIdentity => append_str(&mut m, "history catalog identity mismatch"),
            HistoryError::HeadUnparsable => append_str(&mut m, "history committed head is not a decimal number"),
            HistoryError::HeadMismatch => append_str(
                &mut m,
                "history committed head mismatch: records may have been deleted",
            ),
            HistoryError::SequenceGap { at } => {
                append_str(&mut m, "history sequence gap at ");
                append_decimal(&mut m, *at);
            },
            HistoryError::CapExceeded => append_str(&mut m, "storage cap exceeded including journal reserve"),
            HistoryError::RecordTooLarge => append_str(&mut m, "record does not fit configured save file_bytes"),
            HistoryError::TotalReached => append_str(
                &mut m,
                "storage total_bytes limit reached; history is retained",
            ),
            HistoryError::TotalReserve => append_str(
                &mut m,
                "storage total_bytes limit reached including journal reserve",
            ),
            HistoryError::ChecksumMismatch => append_str(&mut m, "history record checksum mismatch"),
        }
        proof {
            reveal_strlit("file_bytes not resolved");
            reveal_strlit("total_bytes not resolved");
            reveal_strlit(
                "save limits require file_bytes >= 262144 and total_bytes >= 2 * file_bytes (journal reserve)",
            );
            reveal_strlit("directory missing");
            reveal_strlit("history catalog exceeds supported size");
            reveal_strlit("history catalog is incomplete; manual recovery required");
            reveal_strlit("history segment catalog mismatch: files may be missing");
            reveal_strlit("history catalog missing; refusing to reset a previously initialized stream");
            reveal_strlit("history segment missing or renamed at index ");
            reveal_strlit("history integrity failure: ");
            reveal_strlit("saved stream owner/parents changed; use a new stream or storage directory");
            reveal_strlit("history epoch mismatch");
            reveal_strlit("history catalog identity mismatch");
            reveal_strlit("history committed head is not a decimal number");
            reveal_strlit("history committed head mismatch: records may have been deleted");
            reveal_strlit("history sequence gap at ");
            reveal_strlit("storage cap exceeded including journal reserve");
            reveal_strlit("record does not fit configured save file_bytes");
            reveal_strlit("storage total_bytes limit reached; history is retained");
            reveal_strlit("storage total_bytes limit reached including journal reserve");
            reveal_strlit("history record checksum mismatch");
        }
        m
    }
}

/// `n` clamped to the `u64` range.
pub open spec fn saturating(n: int) -> int {
    if n > u64::MAX {
        u64::MAX as int
    } else {
        n
    }
}

/// The segment sizes a saved stream may use: both must be resolved, a segment
/// holds at least 256 KiB, and the total leaves room for a segment-size journal.
pub fn save_limits(file_bytes: Option<u64>, total_bytes: Option<u64>) -> (r: Result<(u64, u64), HistoryError>)
    ensures
        match (file_bytes, total_bytes) {
            (None, _) => r == Err::<(u64, u64), HistoryError>(HistoryError::FileBytesUnresolved),
            (Some(_), None) => r == Err::<(u64, u64), HistoryError>(HistoryError::TotalBytesUnresolved),
            (Some(f), Some(t)) => if f < MIN_FILE_BYTES || t < saturating(2 * f) {
                r == Err::<(u64, u64), HistoryError>(HistoryError::Limits)
            } else {
                r == Ok::<(u64, u64), HistoryError>((f, t))
            },
        },
{
    let f = match file_bytes {
        None => {
            return Err(HistoryError::FileBytesUnresolved);
        },
        Some(f) => f,
    };
    let t = match total_bytes {
        None => {
            return Err(HistoryError::TotalBytesUnresolved);
        },
        Some(t) => t,
    };
    let twice = if f > u64::MAX / 2 {
        u64::MAX
    } else {
        f * 2
    };
    if f < MIN_FILE_BYTES || t < twice {
        return Err(HistoryError::Limits);
    }
    Ok((f, t))
}

/// One line of the segment catalog: which segment, bound to which epoch and identity.
#[derive(Clone, Debug)]
pub struct CatalogEntry {
    pub index: u64,
    pub epoch: String,
    pub identity: String,
}

/// A catalog that is too large or does not end in a complete line is refused.
pub fn catalog_readable(size: u64, bytes: &[u8]) -> (r: Result<(), HistoryError>)
    ensures
        size > MAX_CATALOG_BYTES ==> r == Err::<(), HistoryError>(HistoryError::CatalogTooLarge),
        size <= MAX_CATALOG_BYTES && !(bytes@.len() > 0 && bytes@.last() == 10u8) ==> r == Err::<
            (),
            HistoryError,
        >(HistoryError::CatalogIncomplete),
        size <= MAX_CATALOG_BYTES && bytes@.len() > 0 && bytes@.last() == 10u8 ==> r is Ok,
{
    if size > MAX_CATALOG_BYTES {
        return Err(HistoryError::CatalogTooLarge);
    }
    if bytes.len() == 0 || bytes[bytes.len() - 1] != 10u8 {
        return Err(HistoryError::CatalogIncomplete);
    }
    Ok(())
}

/// A read catalog must list exactly the segment files found; without a
/// catalog, no segment file may exist and the lock file must be untouched.
pub fn catalog_fits(catalog: Option<usize>, files: usize, lock_bytes: u64) -> (r: Result<(), HistoryError>)
    ensures
        match catalog {
            Some(n) => r == (if n == 0 || n != files {
                Err::<(), HistoryError>(HistoryError::CatalogMismatch)
            } else {
                Ok(())
            }),
            None => r == (if files > 0 || lock_bytes > 0 {
                Err::<(), HistoryError>(HistoryError::CatalogMissing)
            } else {
                Ok(())
            }),
        },
{
    match catalog {
        Some(n) => if n == 0 || n != files {
            Err(HistoryError::CatalogMismatch)
        } else {
            Ok(())
        },
        None => if files > 0 || lock_bytes > 0 {
            Err(HistoryError::CatalogMissing)
        } else {
            Ok(())
        },
    }
}

/// The file name of segment `i`: its number zero-padded to eight digits, then `.sqlite`.
pub open spec fn segment_name(i: nat) -> Seq<char> {
    let d = decimal(i);
    let pad = if d.len() < 8 { 8 - d.len() } else { 0 };
    Seq::new(pad as nat, |k: int| '0') + d + ".sqlite"@
}

/// The file name of segment `i`.
pub fn segment_file(i: u64) -> (s: String)
    ensures
        s@ == segment_name(i as nat),
{
    let mut digits = String::new();
    append_decimal(&mut digits, i);
    let n = digits.as_str().unicode_len();
    let pad = if n < 8 {
        8 - n
    } else {
        0
    };
    let mut s = String::new();
    let mut k: usize = 0;
    while k < pad
        invariant
            k <= pad,
            s@ == Seq::new(k as nat, |j: int| '0'),
        decreases pad - k,
    {
        push_char(&mut s, '0');
        assert(s@ =~= Seq::new((k + 1) as nat, |j: int| '0'));
        k += 1;
    }
    append_str(&mut s, digits.as_str());
    append_str(&mut s, ".sqlite");
    proof {
        reveal_strlit(".sqlite");
    }
    s
}

/// What the queries found in one history segment.
#[derive(Clone, Debug)]
pub struct SegmentFacts {
    /// The segment's file name.
    pub name: String,
    /// SQLite's quick integrity check: `ok` when sound.
    pub check: String,
    pub identity: String,
    pub epoch: String,
    /// Smallest and largest stored sequence, and the number of rows.
    pub min: Option<u64>,
    pub max: Option<u64>,
    pub count: u64,
    /// The head the segment recorded as committed, as stored text.
    pub committed_head: String,
}

/// Checks segment `i` after the segments before it left `epoch` and `head`;
/// gives the epoch and head after it.
pub open spec fn segment_step(
    i: nat,
    seg: SegmentFacts,
    entry: CatalogEntry,
    identity: Seq<char>,
    epoch: Seq<char>,
    head: u64,
) -> Result<(Seq<char>, u64), HistoryError> {
    let ep = if i == 0 { seg.epoch@ } else { epoch };
    if seg.name@ != segment_name(i) {
        Err(HistoryError::SegmentRenamed { index: i as u64 })
    } else if seg.check@ != "ok"@ {
        Err(HistoryError::Integrity { check: seg.check })
    } else if seg.identity@ != identity {
        Err(HistoryError::OwnerChanged)
    } else if i != 0 && epoch != seg.epoch@ {
        Err(HistoryError::EpochMismatch)
    } else if entry.index != i || entry.epoch@ != ep || entry.identity@ != identity {
        Err(HistoryError::CatalogIdentity)
    } else {
        match u64_text(seg.committed_head@) {
            None => Err(HistoryError::HeadUnparsable),
            Some(committed) => if committed != (match seg.max {
                Some(m) => m,
                None => 0,
            }) {
                Err(HistoryError::HeadMismatch)
            } else {
                match (seg.min, seg.max) {
                    (Some(lo), Some(hi)) => if lo != head + 1 || seg.count != hi - lo + 1 {
                        Err(HistoryError::SequenceGap { at: lo })
                    } else {
                        Ok((ep, hi))
                    },
                    _ => Ok((ep, head)),
                }
            },
        }
    }
}

/// Checks the segments from `i` on, in order; the first refusal wins.
pub open spec fn scan_from(
    identity: Seq<char>,
    catalog: Seq<CatalogEntry>,
    segs: Seq<SegmentFacts>,
    i: nat,
    epoch: Seq<char>,
    head: u64,
) -> Result<(Seq<char>, u64), HistoryError>
    decreases segs.len() - i,
{
    if i >= segs.len() {
        Ok((epoch, head))
    } else {
        match segment_step(i, segs[i as int], catalog[i as int], identity, epoch, head) {
            Err(e) => Err(e),
            Ok((ep, h)) => scan_from(identity, catalog, segs, i + 1, ep, h),
        }
    }
}

/// Whether the sequence numbers found are ones the scan can add to.
pub open spec fn scannable(segs: Seq<SegmentFacts>) -> bool {
    forall|i: int|
        0 <= i < segs.len() ==> {
            &&& (#[trigger] segs[i]).max matches Some(hi) ==> hi < u64::MAX
            &&& match (segs[i].min, segs[i].max) {
                (Some(lo), Some(hi)) => lo <= hi,
                _ => true,
            }
        }
}

/// Scans the saved segments in order: each must carry its catalogued name,
/// pass SQLite's check, belong to `identity` and the first segment's epoch,
/// match its catalog line, record its head truthfully and continue the
/// sequence run of the segments before it. Gives the epoch (`fresh` when no
/// segment exists) and the head.
pub fn scan_history(
    identity: &str,
    catalog: &Vec<CatalogEntry>,
    segs: &Vec<SegmentFacts>,
    fresh: String,
) -> (r: Result<(String, u64), HistoryError>)
    requires
        catalog@.len() == segs@.len(),
        scannable(segs@),
    ensures
        match r {
            Ok((e, h)) => scan_from(identity@, catalog@, segs@, 0, fresh@, 0) == Ok::<
                (Seq<char>, u64),
                HistoryError,
            >((e@, h)),
            Err(x) => scan_from(identity@, catalog@, segs@, 0, fresh@, 0) == Err::<
                (Seq<char>, u64),
                HistoryError,
            >(x),
        },
{
    let mut epoch = fresh;
    let mut head: u64 = 0;
    let mut i: usize = 0;
    while i < segs.len()
        invariant
            catalog@.len() == segs@.len(),
            scannable(segs@),
            i <= segs@.len(),
            head < u64::MAX,
            scan_from(identity@, catalog@, segs@, 0, fresh@, 0) == scan_from(
                identity@,
                catalog@,
                segs@,
                i as nat,
                epoch@,
                head,
            ),
        decreases segs.len() - i,
    {
        let seg = &segs[i];
        let entry = &catalog[i];
        let name = segment_file(i as u64);
        if !text_eq(seg.name.as_str(), name.as_str()) {
            return Err(HistoryError::SegmentRenamed { index: i as u64 });
        }
        proof {
            reveal_strlit("ok");
        }
        if !text_eq(seg.check.as_str(), "ok") {
            return Err(HistoryError::Integrity { check: seg.check.clone() });
        }
        if !text_eq(seg.identity.as_str(), identity) {
            return Err(HistoryError::OwnerChanged);
        }
        if i == 0 {
            epoch = seg.epoch.clone();
        } else if !text_eq(epoch.as_str(), seg.epoch.as_str()) {
            return Err(HistoryError::EpochMismatch);
        }
        if entry.index != i as u64 || !text_eq(entry.epoch.as_str(), epoch.as_str()) || !text_eq(
            entry.identity.as_str(),
            identity,
        ) {
            return Err(HistoryError::CatalogIdentity);
        }
        let committed = match parse_u64(seg.committed_head.as_str()) {
            None => {
                return Err(HistoryError::HeadUnparsable);
            },
            Some(c) => c,
        };
        let top = match seg.max {
            Some(m) => m,
            None => 0,
        };
        if committed != top {
            return Err(HistoryError::HeadMismatch);
        }
        match (seg.min, seg.max) {
            (Some(lo), Some(hi)) => {
                proof {
                    assert(hi < u64::MAX && lo <= hi);
                }
                if lo != head + 1 || seg.count != hi - lo + 1 {
                    return Err(HistoryError::SequenceGap { at: lo });
                }
                head = hi;
            },
            _ => {},
        }
        i += 1;
    }
    Ok((epoch, head))
}

/// Opening is refused when the files, with one more segment of journal
/// reserve, would exceed the total.
pub fn within_cap(disk: u64, file_bytes: u64, total_bytes: u64) -> (r: Result<(), HistoryError>)
    ensures
        r == (if saturating(disk + file_bytes) > total_bytes {
            Err::<(), HistoryError>(HistoryError::CapExceeded)
        } else {
            Ok(())
        }),
{
    let used = if disk > u64::MAX - file_bytes {
        u64::MAX
    } else {
        disk + file_bytes
    };
    if used > total_bytes {
        Err(HistoryError::CapExceeded)
    } else {
        Ok(())
    }
}

/// Pages a record of `json_len` encoded bytes is charged for: the row, index
/// splits and transaction metadata, rounded up to whole pages.
pub open spec fn growth(json_len: nat) -> int {
    (((json_len + 32768 + PAGE - 1) / PAGE as int) * PAGE) as int
}

/// Where a new record goes.
#[derive(Clone, Copy, Debug, PartialEq, Eq)]
pub enum Room {
    /// Into the current segment.
    Current,
    /// Into a new segment, which has to be created first.
    NewSegment,
}

/// Decides where a record of `json_len` encoded bytes is written, given the
/// current segment's `pages` and the files' `disk` bytes; gives the bytes the
/// record is charged for. A segment never outgrows `file_bytes`, and a new
/// segment is only begun when the total still leaves its journal reserve.
pub fn append_room(json_len: usize, pages: u64, disk: u64, file_bytes: u64, total_bytes: u64) -> (r: Result<
    (u64, Room),
    HistoryError,
>)
    requires
        json_len < 0x1000_0000_0000_0000,
        pages < 0x1_0000_0000,
    ensures
        growth(json_len as nat) + 16384 > file_bytes ==> r == Err::<(u64, Room), HistoryError>(
            HistoryError::RecordTooLarge,
        ),
        growth(json_len as nat) + 16384 <= file_bytes ==> {
            let g = growth(json_len as nat);
            if pages * PAGE + g > file_bytes {
                if saturating(saturating(disk + file_bytes) + g + 16384) > total_bytes {
                    r == Err::<(u64, Room), HistoryError>(HistoryError::TotalReached)
                } else {
                    r == Ok::<(u64, Room), HistoryError>((g as u64, Room::NewSegment))
                }
            } else {
                r == Ok::<(u64, Room), HistoryError>((g as u64, Room::Current))
            }
        },
{
    let padded = json_len as u64 + 32768;
    let g = (padded + PAGE - 1) / PAGE * PAGE;
    assert(g == growth(json_len as nat));
    if g + 16384 > file_bytes {
        return Err(HistoryError::RecordTooLarge);
    }
    let size = pages * PAGE;
    if size + g > file_bytes {
        let with_reserve = if disk > u64::MAX - file_bytes {
            u64::MAX
        } else {
            disk + file_bytes
        };
        let needed = if with_reserve > u64::MAX - (g + 16384) {
            u64::MAX
        } else {
            with_reserve + (g + 16384)
        };
        if needed > total_bytes {
            return Err(HistoryError::TotalReached);
        }
        return Ok((g, Room::NewSegment));
    }
    Ok((g, Room::Current))
}

/// Before writing, the files plus the record and one segment of journal
/// reserve must stay within the total.
pub fn append_reserve(growth_bytes: u64, disk: u64, file_bytes: u64, total_bytes: u64) -> (r: Result<
    (),
    HistoryError,
>)
    ensures
        r == (if saturating(saturating(disk + growth_bytes) + file_bytes) > total_bytes {
            Err::<(), HistoryError>(HistoryError::TotalReserve)
        } else {
            Ok(())
        }),
{
    let a = if disk > u64::MAX - growth_bytes {
        u64::MAX
    } else {
        disk + growth_bytes
    };
    let b = if a > u64::MAX - file_bytes {
        u64::MAX
    } else {
        a + file_bytes
    };
    if b > total_bytes {
        Err(HistoryError::TotalReserve)
    } else {
        Ok(())
    }
}

/// A stored row is only read back when its JSON still has the SHA-256 it was
/// stored with.
pub fn check_row(json: &str, checksum: &str) -> (r: Result<(), HistoryError>)
    ensures
        r == (if sha256_hex(encode_utf8(json@)) != checksum@ {
            Err::<(), HistoryError>(HistoryError::ChecksumMismatch)
        } else {
            Ok(())
        }),
{
    let h = hex_hash(json.as_bytes());
    if !text_eq(h.as_str(), checksum) {
        Err(HistoryError::ChecksumMismatch)
    } else {
        Ok(())
    }
}

} // verus!
