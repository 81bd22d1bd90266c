use log_print::archive::{confirmed_prefixes_match, gap_history_row, ArchiveHealth, TargetCursor};
use log_print::archive::{audit_history, check_duplicate, common_cursors, epochs_agree, CommitBatch, GapRow};
use log_print::archive::{
    check_index, checkpoint_matches, hex_hash, initial_cursors_ok, sibling, take_gap, take_record, unsigned, ArchiveConfig,
    ArchiveConfigError, ArchiveError, CommitConfig, Cursor, FileCheckpoint, FileConfig, FileIdentity, Format, Gap, GapStep,
    IndexEntry, Mode, QueueConfig, RecordStep, SqliteConfig, SCHEMA_VERSION,
};

fn cursor(next: u64) -> Cursor {
    Cursor { epoch: "e".into(), next }
}

fn gap(from: u64, to: u64) -> Gap {
    Gap { stream: "s".into(), epoch: "e".into(), from, to, reason: "buffer_overwritten".into() }
}

fn config() -> ArchiveConfig {
    ArchiveConfig {
        streams: vec!["s".into()],
        from: log_print::archive::default_from(),
        mode: Mode::Create,
        file: Some(FileConfig { format: Format::Raw, paths: vec![("s".into(), "/tmp/s.raw".into())] }),
        sqlite: None,
        commit: CommitConfig::default(),
        queue: QueueConfig::default(),
        fail_on_gap: log_print::archive::yes(),
    }
}

fn checkpoint() -> FileCheckpoint {
    FileCheckpoint {
        schema_version: SCHEMA_VERSION,
        archive_id: "id".into(),
        config_digest: "digest".into(),
        stream: "s".into(),
        initial: cursor(1),
        cursor: cursor(1),
        file_identity: FileIdentity { volume: 1, index: 2 },
        index_identity: FileIdentity { volume: 1, index: 3 },
        confirmed_len: 0,
        confirmed_sha256: hex_hash(b""),
        index_len: 0,
        index_sha256: hex_hash(b""),
        gap_count: 0,
        incomplete: false,
    }
}

#[test]
fn records_continue_the_cursor_and_duplicates_are_checked() {
    assert_eq!(take_record(&cursor(3), "e", 3), Ok(RecordStep::Append { next: 4 }));
    assert_eq!(take_record(&cursor(3), "e", 2), Ok(RecordStep::Duplicate));
    assert_eq!(take_record(&cursor(3), "e", 5), Err(ArchiveError::UnannouncedGap));
    assert_eq!(take_record(&cursor(3), "f", 3), Err(ArchiveError::EpochChanged));
    assert_eq!(take_record(&cursor(u64::MAX), "e", u64::MAX), Err(ArchiveError::SequenceExhausted));
}

#[test]
fn gaps_are_recorded_and_only_advancing_gaps_move_the_cursor() {
    assert_eq!(take_gap(&cursor(3), &gap(3, 5), false), Ok(GapStep::Record { next: 3 }));
    assert_eq!(take_gap(&cursor(3), &gap(3, 5), true), Ok(GapStep::Record { next: 6 }));
    assert_eq!(take_gap(&cursor(9), &gap(3, 5), true), Ok(GapStep::Ignore));
    assert_eq!(take_gap(&cursor(9), &gap(3, 5), false), Ok(GapStep::Record { next: 9 }));
    assert_eq!(take_gap(&cursor(2), &gap(3, 5), true), Err(ArchiveError::GapNotCovering));
    assert_eq!(take_gap(&cursor(3), &gap(5, 3), true), Err(ArchiveError::InvalidGap));
    assert_eq!(take_gap(&cursor(3), &gap(3, u64::MAX), true), Err(ArchiveError::SequenceExhausted));
}

#[test]
fn u64_decimals_are_canonical() {
    assert_eq!(unsigned("18446744073709551615"), Ok(u64::MAX));
    assert_eq!(unsigned("0"), Ok(0));
    assert_eq!(unsigned("18446744073709551616"), Err(ArchiveError::InvalidDecimal));
    assert_eq!(unsigned("007"), Err(ArchiveError::NoncanonicalDecimal));
    assert_eq!(unsigned("+7"), Err(ArchiveError::NoncanonicalDecimal));
    assert_eq!(unsigned(""), Err(ArchiveError::InvalidDecimal));
    assert_eq!(unsigned("+"), Err(ArchiveError::InvalidDecimal));
    assert_eq!(unsigned("1a"), Err(ArchiveError::InvalidDecimal));
    assert_eq!(unsigned("-1"), Err(ArchiveError::InvalidDecimal));
}

#[test]
fn index_replay_must_match_the_checkpoint() {
    let digest = hex_hash(b"record");
    let entries = vec![
        IndexEntry::Record { epoch: "e".into(), seq: 1, record_sha256: digest.clone(), offset: 0, length: 3 },
        IndexEntry::Gap { gap: gap(2, 4), advances: true },
        IndexEntry::Record { epoch: "e".into(), seq: 5, record_sha256: digest.clone(), offset: 3, length: 2 },
    ];
    let mut cp = checkpoint();
    cp.cursor = cursor(6);
    cp.confirmed_len = 5;
    cp.gap_count = 1;
    cp.incomplete = true;
    assert_eq!(check_index(&cp, &entries), Ok(()));
    cp.incomplete = false;
    assert_eq!(check_index(&cp, &entries), Err(ArchiveError::CheckpointDisagrees));
    let bad = vec![IndexEntry::Record { epoch: "e".into(), seq: 2, record_sha256: digest.clone(), offset: 0, length: 3 }];
    assert_eq!(check_index(&checkpoint(), &bad), Err(ArchiveError::IndexInconsistent));
    let short = vec![IndexEntry::Record { epoch: "e".into(), seq: 1, record_sha256: "abc".into(), offset: 0, length: 3 }];
    assert_eq!(check_index(&checkpoint(), &short), Err(ArchiveError::IndexInconsistent));
    let foreign = vec![IndexEntry::Gap { gap: Gap { stream: "t".into(), ..gap(1, 1) }, advances: false }];
    assert_eq!(check_index(&checkpoint(), &foreign), Err(ArchiveError::IndexGapInvalid));
    assert_eq!(check_index(&checkpoint(), &vec![]), Ok(()));
}

#[test]
fn resume_checkpoint_identity_is_checked() {
    let cp = checkpoint();
    assert!(checkpoint_matches(&cp, "id", "digest", "s"));
    assert!(!checkpoint_matches(&cp, "other", "digest", "s"));
    assert!(!checkpoint_matches(&cp, "id", "digest", "t"));
    let mut behind = checkpoint();
    behind.cursor = cursor(0);
    assert!(!checkpoint_matches(&behind, "id", "digest", "s"));
}

#[test]
fn hashes_are_lowercase_sha256_hex() {
    assert_eq!(hex_hash(b""), "e3b0c44298fc1c149afbf4c8996fb92427ae41e4649b934ca495991b7852b855");
    assert_eq!(hex_hash(b"abc"), "ba7816bf8f01cfea414140de5dae2223b00361a396177a9cb410ff61f20015ad");
    assert_eq!(sibling("/tmp/s.raw", ".lock"), "/tmp/s.raw.lock");
}

#[test]
fn path_aliases_and_unknown_configuration_fail() {
    assert_eq!(config().validate(), Ok(()));
    let mut c = config();
    c.streams = vec!["s".into(), "s".into()];
    assert_eq!(c.validate(), Err(ArchiveConfigError::Streams));
    let mut c = config();
    c.file = None;
    assert_eq!(c.validate(), Err(ArchiveConfigError::NoTarget));
    c.sqlite = Some(SqliteConfig { path: String::new() });
    assert_eq!(c.validate(), Err(ArchiveConfigError::EmptySqlitePath));
    let mut c = config();
    c.file = Some(FileConfig { format: Format::Jsonl, paths: vec![("t".into(), "/tmp/t".into())] });
    assert_eq!(c.validate(), Err(ArchiveConfigError::PathsMismatch));
    let mut c = config();
    c.file = Some(FileConfig { format: Format::Raw, paths: vec![("s".into(), String::new())] });
    assert_eq!(c.validate(), Err(ArchiveConfigError::EmptyFilePath));
    let mut c = config();
    c.commit.max_delay_ms = 0;
    assert_eq!(c.validate(), Err(ArchiveConfigError::CommitLimits));
    let mut c = config();
    c.queue.max_bytes = 1024;
    assert_eq!(c.validate(), Err(ArchiveConfigError::QueueLimits));
    assert_eq!(config().validate_reads(&vec!["s".into()]), Ok(()));
    assert_eq!(config().validate_reads(&vec!["t".into()]), Err(ArchiveConfigError::NotRead));
}

#[test]
fn initial_cursors_and_archive_identity_are_required() {
    let streams = vec!["s".to_string()];
    assert!(initial_cursors_ok(&streams, &vec![("s".into(), cursor(1))]));
    assert!(!initial_cursors_ok(&streams, &vec![]));
    assert!(!initial_cursors_ok(&streams, &vec![("s".into(), cursor(0))]));
    assert!(!initial_cursors_ok(&streams, &vec![("s".into(), Cursor { epoch: String::new(), next: 1 })]));
    assert!(!initial_cursors_ok(&streams, &vec![("s".into(), cursor(1)), ("t".into(), cursor(1))]));
}

fn cursor_entry(stream: &str, epoch: &str, next: u64) -> (String, log_print::archive::Cursor) {
    (stream.to_string(), log_print::archive::Cursor { epoch: epoch.to_string(), next })
}

fn history_row(stream: &str, first: u64, last: u64, hashes: Option<(&str, &str)>) -> log_print::archive::HistoryRow {
    log_print::archive::HistoryRow {
        stream: stream.to_string(),
        epoch: "e".to_string(),
        first,
        last,
        hashes: hashes.map(|(a, b)| (a.to_string(), b.to_string())),
    }
}

#[test]
fn stored_history_must_replay_to_the_confirmed_cursors() {
    let initial = vec![cursor_entry("a", "e", 1), cursor_entry("b", "e", 5)];
    let confirmed = vec![cursor_entry("a", "e", 4), cursor_entry("b", "e", 6)];
    let rows = vec![
        history_row("a", 1, 1, Some(("h", "h"))),
        history_row("a", 2, 3, None),
        history_row("b", 5, 5, Some(("x", "x"))),
    ];
    let gap = GapRow { stream: "a".to_string(), epoch: "e".to_string(), first: 2, last: 3, advances: 1, coverage: 2 };
    assert_eq!(audit_history(&initial, &rows, &confirmed, &vec![gap.clone()]), Ok(()));
    let mut edited = rows.clone();
    edited[0] = history_row("a", 1, 1, Some(("h", "changed")));
    assert_eq!(audit_history(&initial, &edited, &confirmed, &Vec::new()), Err(ArchiveError::RecordChanged));
    let deleted = vec![rows[0].clone(), rows[2].clone()];
    assert_eq!(audit_history(&initial, &deleted, &confirmed, &Vec::new()), Err(ArchiveError::CheckpointDisagrees));
    let hole = vec![rows[0].clone(), history_row("a", 3, 3, None)];
    assert_eq!(audit_history(&initial, &hole, &confirmed, &Vec::new()), Err(ArchiveError::HistoryDiscontinuous));
    let stranger = vec![history_row("c", 1, 1, None)];
    assert_eq!(audit_history(&initial, &stranger, &confirmed, &Vec::new()), Err(ArchiveError::UnknownStream));
    let beyond = GapRow { coverage: 7, ..gap.clone() };
    assert_eq!(audit_history(&initial, &rows, &confirmed, &vec![beyond]), Err(ArchiveError::GapMetadataInvalid));
    let flag = GapRow { advances: 2, ..gap };
    assert_eq!(audit_history(&initial, &rows, &confirmed, &vec![flag]), Err(ArchiveError::GapMetadataInvalid));
    let last = vec![cursor_entry("a", "e", u64::MAX)];
    assert_eq!(
        audit_history(&last, &vec![history_row("a", u64::MAX, u64::MAX, None)], &last, &Vec::new()),
        Err(ArchiveError::HistoryOverflow)
    );
}

#[test]
fn redelivered_records_must_match_the_index() {
    let entries = vec![
        IndexEntry::Record { epoch: "e".to_string(), seq: 1, record_sha256: "h1".to_string(), offset: 0, length: 3 },
        IndexEntry::Gap {
            gap: Gap { stream: "s".to_string(), epoch: "e".to_string(), from: 2, to: 2, reason: "r".to_string() },
            advances: true,
        },
        IndexEntry::Record { epoch: "e".to_string(), seq: 3, record_sha256: "h3".to_string(), offset: 3, length: 3 },
    ];
    assert_eq!(check_duplicate(&entries, "e", 3, "h3"), Ok(()));
    assert_eq!(check_duplicate(&entries, "e", 3, "other"), Err(ArchiveError::ConflictingDuplicate));
    assert_eq!(check_duplicate(&entries, "e", 2, "h"), Err(ArchiveError::DuplicateAbsent));
    assert_eq!(check_duplicate(&entries, "f", 1, "h1"), Err(ArchiveError::DuplicateAbsent));
}

#[test]
fn common_cursors_take_the_position_both_targets_confirmed() {
    let file = vec![cursor_entry("a", "e", 5), cursor_entry("b", "e", 3)];
    let sqlite = vec![cursor_entry("a", "x", 4), cursor_entry("c", "e", 9)];
    let common = common_cursors(&file, &sqlite);
    let found = |s: &str| common.iter().find(|(n, _)| n == s).map(|(_, c)| (c.epoch.clone(), c.next));
    assert_eq!(found("a"), Some(("e".to_string(), 4)));
    assert_eq!(found("b"), Some(("e".to_string(), 3)));
    assert_eq!(found("c"), Some(("e".to_string(), 9)));
    assert_eq!(common.len(), 3);
    assert_eq!(common_cursors(&file, &Vec::new()).len(), 2);
}

#[test]
fn archive_targets_must_agree_on_epochs() {
    let file = vec![cursor_entry("a", "e", 5)];
    assert!(epochs_agree(&file, &vec![cursor_entry("b", "e", 1), cursor_entry("a", "e", 2)]));
    assert!(!epochs_agree(&file, &vec![cursor_entry("a", "x", 5)]));
    assert!(!epochs_agree(&file, &Vec::new()));
}

#[test]
fn batches_commit_on_count_bytes_or_age() {
    let policy = CommitConfig { max_records: 3, max_bytes: 100, max_delay_ms: 50 };
    let mut b = CommitBatch::new();
    assert!(!b.commit_before(200, &policy));
    assert!(!b.written(10, 0, &policy));
    assert!(!b.written(10, 10, &policy));
    assert!(b.written(10, 10, &policy));
    b.committed();
    assert_eq!(b, CommitBatch::new());
    assert!(!b.written(60, 0, &policy));
    assert!(b.commit_before(50, &policy));
    assert!(!b.commit_before(40, &policy));
    assert!(b.written(1, 50, &policy));
    let mut big = CommitBatch::new();
    assert!(big.written(100, 0, &policy));
}

#[test]
fn sqlite_deleted_or_modified_rows_fail_logical_integrity_check() {
    let abc = b"{\"seq\":1,\"payload\":\"abc\"}";
    let def = b"{\"seq\":2,\"payload\":\"def\"}";
    let row1 = log_print::archive::history_row("s", "e", "1", abc, &hex_hash(abc)).unwrap();
    assert_eq!((row1.first, row1.last), (1, 1));
    assert_eq!(row1.hashes, Some((hex_hash(abc), hex_hash(abc))));
    let row2 = log_print::archive::history_row("s", "e", "2", def, &hex_hash(def)).unwrap();
    let initial = vec![cursor_entry("s", "e", 1)];
    let confirmed = vec![cursor_entry("s", "e", 3)];
    assert_eq!(audit_history(&initial, &vec![row1.clone(), row2.clone()], &confirmed, &Vec::new()), Ok(()));
    // A stored sequence that is not canonical, or not a number, is refused.
    assert_eq!(log_print::archive::history_row("s", "e", "01", abc, &hex_hash(abc)).unwrap_err(), ArchiveError::NoncanonicalDecimal);
    assert_eq!(log_print::archive::history_row("s", "e", "x", abc, &hex_hash(abc)).unwrap_err(), ArchiveError::InvalidDecimal);
    // A payload changed under its stored hash fails the audit.
    let changed = b"{\"seq\":1,\"payload\":\"\\u0000\"}";
    let tampered = log_print::archive::history_row("s", "e", "1", changed, &hex_hash(abc)).unwrap();
    assert_eq!(
        audit_history(&initial, &vec![tampered, row2.clone()], &confirmed, &Vec::new()),
        Err(ArchiveError::RecordChanged)
    );
    // A deleted row, or a checkpoint moved ahead, disagrees with the history.
    assert_eq!(audit_history(&initial, &vec![row2.clone()], &confirmed, &Vec::new()), Err(ArchiveError::HistoryDiscontinuous));
    let ahead = vec![cursor_entry("s", "e", 4)];
    assert_eq!(audit_history(&initial, &vec![row1, row2], &ahead, &Vec::new()), Err(ArchiveError::CheckpointDisagrees));
    let g = gap_history_row("s", "e", "1", "3").unwrap();
    assert_eq!((g.first, g.last, g.hashes), (1, 3, None));
    assert_eq!(gap_history_row("s", "e", "+1", "3").unwrap_err(), ArchiveError::NoncanonicalDecimal);
    assert_eq!(gap_history_row("s", "e", "1", "").unwrap_err(), ArchiveError::InvalidDecimal);
}

#[test]
fn confirmed_file_prefixes_must_keep_their_digests() {
    let mut cp = checkpoint();
    cp.confirmed_len = 3;
    cp.confirmed_sha256 = hex_hash(b"abc");
    cp.index_len = 2;
    cp.index_sha256 = hex_hash(b"ix");
    assert_eq!(confirmed_prefixes_match(&cp, b"abc", b"ix"), Ok(()));
    assert_eq!(confirmed_prefixes_match(&cp, b"abd", b"ix"), Err(ArchiveError::ConfirmedContentChanged));
    assert_eq!(confirmed_prefixes_match(&cp, b"abc", b"iy"), Err(ArchiveError::ConfirmedContentChanged));
    assert_eq!(confirmed_prefixes_match(&cp, b"a", b"ix"), Err(ArchiveError::ArchiveShorter));
    assert_eq!(confirmed_prefixes_match(&checkpoint(), b"", b""), Ok(()));
}

#[test]
fn gap_is_durable_and_only_continuation_advances_cursor() {
    for advances in [false, true] {
        let mut t = TargetCursor::new(Cursor { epoch: "e".into(), next: 1 }, 0);
        let g = Gap { stream: "s".into(), epoch: "e".into(), from: 1, to: 3, reason: "history evicted".into() };
        assert_eq!(t.gap(&g, advances), Ok(GapStep::Record { next: if advances { 4 } else { 1 } }));
        assert_eq!(t.confirmed.next, 1);
        assert!(!t.incomplete());
        t.commit();
        assert_eq!(t.confirmed.next, if advances { 4 } else { 1 });
        assert!(t.incomplete());
        let mut resumed = TargetCursor::new(t.confirmed.clone(), t.confirmed_gaps);
        assert!(resumed.incomplete());
        if advances {
            assert_eq!(resumed.accept("e", 4), Ok(RecordStep::Append { next: 5 }));
            resumed.commit();
            assert_eq!(resumed.confirmed.next, 5);
        }
    }
}

#[test]
fn u64_sequence_boundary_is_explicit_and_lossless() {
    let mut t = TargetCursor::new(Cursor { epoch: "e".into(), next: u64::MAX - 1 }, 0);
    assert_eq!(t.accept("e", u64::MAX - 1), Ok(RecordStep::Append { next: u64::MAX }));
    t.commit();
    assert_eq!(t.confirmed.next, u64::MAX);
    assert_eq!(t.accept("e", u64::MAX), Err(ArchiveError::SequenceExhausted));
    assert_eq!(t.pending.next, u64::MAX);
}

#[test]
fn archive_stops_after_a_target_error() {
    let mut h = ArchiveHealth::new();
    assert_eq!(h.healthy(), Ok(()));
    assert_eq!(h.state(), "active");
    assert_eq!(h.settle(Ok::<u64, String>(4)), Ok(4));
    assert_eq!(h.healthy(), Ok(()));
    assert_eq!(h.settle(Err::<(), String>("file target: disk full".to_string())), Err("file target: disk full".to_string()));
    assert_eq!(h.state(), "failed");
    assert_eq!(h.healthy(), Err("archive stopped after error: file target: disk full".to_string()));
}
