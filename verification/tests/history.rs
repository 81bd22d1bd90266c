use log_print::history::{
    append_reserve, append_room, catalog_fits, catalog_readable, check_row, save_limits, scan_history,
    segment_file, within_cap, CatalogEntry, HistoryError, Room, SegmentFacts,
};

fn entry(index: u64) -> CatalogEntry {
    CatalogEntry { index, epoch: "e".to_string(), identity: "id".to_string() }
}

fn segment(i: u64, min: Option<u64>, max: Option<u64>, count: u64) -> SegmentFacts {
    SegmentFacts {
        name: segment_file(i),
        check: "ok".to_string(),
        identity: "id".to_string(),
        epoch: "e".to_string(),
        min,
        max,
        count,
        committed_head: max.unwrap_or(0).to_string(),
    }
}

#[test]
fn save_limits_need_a_quarter_mebibyte_and_a_journal_reserve() {
    assert_eq!(save_limits(None, Some(1)), Err(HistoryError::FileBytesUnresolved));
    assert_eq!(save_limits(Some(262144), None), Err(HistoryError::TotalBytesUnresolved));
    assert_eq!(save_limits(Some(262143), Some(1 << 30)), Err(HistoryError::Limits));
    assert_eq!(save_limits(Some(262144), Some(524287)), Err(HistoryError::Limits));
    assert_eq!(save_limits(Some(262144), Some(524288)), Ok((262144, 524288)));
    assert_eq!(save_limits(Some(u64::MAX), Some(u64::MAX)), Ok((u64::MAX, u64::MAX)));
}

#[test]
fn catalog_must_be_small_complete_and_match_the_files() {
    assert_eq!(catalog_readable(16 * 1024 * 1024 + 1, b"x\n"), Err(HistoryError::CatalogTooLarge));
    assert_eq!(catalog_readable(3, b"{}x"), Err(HistoryError::CatalogIncomplete));
    assert_eq!(catalog_readable(0, b""), Err(HistoryError::CatalogIncomplete));
    assert_eq!(catalog_readable(3, b"{}\n"), Ok(()));
    assert_eq!(catalog_fits(Some(0), 0, 0), Err(HistoryError::CatalogMismatch));
    assert_eq!(catalog_fits(Some(2), 1, 0), Err(HistoryError::CatalogMismatch));
    assert_eq!(catalog_fits(Some(2), 2, 9), Ok(()));
    assert_eq!(catalog_fits(None, 1, 0), Err(HistoryError::CatalogMissing));
    assert_eq!(catalog_fits(None, 0, 24), Err(HistoryError::CatalogMissing));
    assert_eq!(catalog_fits(None, 0, 0), Ok(()));
}

#[test]
fn segment_names_are_zero_padded_to_eight_digits() {
    assert_eq!(segment_file(0), "00000000.sqlite");
    assert_eq!(segment_file(3), "00000003.sqlite");
    assert_eq!(segment_file(123456789), "123456789.sqlite");
}

#[test]
fn segments_continue_one_sequence_run() {
    let catalog = vec![entry(0), entry(1), entry(2)];
    let segs = vec![segment(0, Some(1), Some(4), 4), segment(1, Some(5), Some(9), 5), segment(2, None, None, 0)];
    assert_eq!(scan_history("id", &catalog, &segs, "fresh".to_string()), Ok(("e".to_string(), 9)));
    assert_eq!(scan_history("id", &Vec::new(), &Vec::new(), "fresh".to_string()), Ok(("fresh".to_string(), 0)));
}

#[test]
fn segment_faults_are_named() {
    let catalog = vec![entry(0), entry(1)];
    let gap = vec![segment(0, Some(1), Some(4), 4), segment(1, Some(6), Some(9), 4)];
    assert_eq!(scan_history("id", &catalog, &gap, "f".to_string()), Err(HistoryError::SequenceGap { at: 6 }));
    let holes = vec![segment(0, Some(1), Some(4), 3), segment(1, None, None, 0)];
    assert_eq!(scan_history("id", &catalog, &holes, "f".to_string()), Err(HistoryError::SequenceGap { at: 1 }));
    let mut renamed = vec![segment(0, None, None, 0), segment(1, None, None, 0)];
    renamed[1].name = "00000002.sqlite".to_string();
    assert_eq!(
        scan_history("id", &catalog, &renamed, "f".to_string()),
        Err(HistoryError::SegmentRenamed { index: 1 })
    );
    let mut corrupt = vec![segment(0, None, None, 0), segment(1, None, None, 0)];
    corrupt[0].check = "page 3 bad".to_string();
    let e = scan_history("id", &catalog, &corrupt, "f".to_string()).unwrap_err();
    assert_eq!(e.message(), "history integrity failure: page 3 bad");
    assert_eq!(
        scan_history("other", &catalog, &vec![segment(0, None, None, 0), segment(1, None, None, 0)], "f".to_string()),
        Err(HistoryError::OwnerChanged)
    );
    let mut epochs = vec![segment(0, None, None, 0), segment(1, None, None, 0)];
    epochs[1].epoch = "x".to_string();
    assert_eq!(scan_history("id", &catalog, &epochs, "f".to_string()), Err(HistoryError::EpochMismatch));
    let mut head = vec![segment(0, Some(1), Some(2), 2), segment(1, None, None, 0)];
    head[0].committed_head = "1".to_string();
    assert_eq!(scan_history("id", &catalog, &head, "f".to_string()), Err(HistoryError::HeadMismatch));
    head[0].committed_head = "+2".to_string();
    assert_eq!(scan_history("id", &catalog, &head, "f".to_string()), Ok(("e".to_string(), 2)));
    head[0].committed_head = "two".to_string();
    assert_eq!(scan_history("id", &catalog, &head, "f".to_string()), Err(HistoryError::HeadUnparsable));
    let wrong = vec![entry(0), entry(0)];
    assert_eq!(
        scan_history("id", &wrong, &vec![segment(0, None, None, 0), segment(1, None, None, 0)], "f".to_string()),
        Err(HistoryError::CatalogIdentity)
    );
}

#[test]
fn opening_and_appending_respect_the_total() {
    assert_eq!(within_cap(100, 262144, 262244), Ok(()));
    assert_eq!(within_cap(101, 262144, 262244), Err(HistoryError::CapExceeded));
    assert_eq!(within_cap(u64::MAX, 1, u64::MAX), Ok(()));
    // 100 bytes of JSON are charged (100 + 32768) rounded up to pages: 36864.
    assert_eq!(append_room(100, 0, 0, 262144, 1 << 30), Ok((36864, Room::Current)));
    assert_eq!(append_room(100, 60, 0, 262144, 1 << 30), Ok((36864, Room::NewSegment)));
    assert_eq!(append_room(100, 60, 1 << 30, 262144, 1 << 30), Err(HistoryError::TotalReached));
    assert_eq!(append_room(262144, 0, 0, 262144, 1 << 30), Err(HistoryError::RecordTooLarge));
    assert_eq!(append_reserve(36864, 0, 262144, 299008), Ok(()));
    assert_eq!(append_reserve(36864, 1, 262144, 299008), Err(HistoryError::TotalReserve));
}

#[test]
fn rows_must_keep_their_checksum() {
    let sum = "ba7816bf8f01cfea414140de5dae2223b00361a396177a9cb410ff61f20015ad";
    assert_eq!(check_row("abc", sum), Ok(()));
    assert_eq!(check_row("abd", sum), Err(HistoryError::ChecksumMismatch));
    assert_eq!(check_row("abc", "abc"), Err(HistoryError::ChecksumMismatch));
}

#[test]
fn error_texts() {
    assert_eq!(HistoryError::SequenceGap { at: 12 }.message(), "history sequence gap at 12");
    assert_eq!(HistoryError::SegmentRenamed { index: 3 }.message(), "history segment missing or renamed at index 3");
    assert_eq!(HistoryError::CapExceeded.message(), "storage cap exceeded including journal reserve");
}
