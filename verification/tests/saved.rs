use log_print::proto::CoreOptions;
use log_print::saved::{check_saved_options, patch_options};
use log_print::saved::parent_epochs;
use log_print::record::{pairs_eq, FaultCode, Record};
use log_print::saved::{
    contains_infix, finish_read, Publish, Published, ReadPlan, ReadSource, SavedStream,
};

fn stream(saved: bool) -> SavedStream {
    SavedStream::new(
        "s".to_string(),
        "p".to_string(),
        Vec::new(),
        "identity".to_string(),
        "e1".to_string(),
        saved,
    )
}

fn publish(key: &str, payload: &[u8]) -> Publish {
    Publish {
        stream: "s".to_string(),
        key: key.to_string(),
        payload: payload.to_vec(),
        source_ts_ns: Some(7),
        upstream: Vec::new(),
    }
}

fn record(seq: u64) -> Record {
    Record {
        stream: "s".to_string(),
        epoch: "e1".to_string(),
        seq,
        key: format!("k{seq}"),
        payload: vec![seq as u8],
        source_ts_ns: None,
        observed_ts_ns: 0,
        upstream: Vec::new(),
        upstream_epochs: Vec::new(),
        source_seq: None,
        channel: None,
    }
}

fn buffered(r: Result<Published, log_print::registry::Fault>) -> Record {
    match r {
        Ok(Published::Buffered(x)) => x,
        other => panic!("expected a buffered record, got {other:?}"),
    }
}

#[test]
fn republishing_a_key_returns_the_first_record_and_changes_nothing() {
    let mut s = stream(false);
    let first = buffered(s.publish(publish("a", b"x"), Vec::new(), None, 100, 65536, 10, 1 << 20));
    assert_eq!(first.seq, 1);
    assert_eq!(first.observed_ts_ns, 100);
    assert_eq!(s.head, 1);
    match s.publish(publish("a", b"x"), Vec::new(), None, 200, 65536, 10, 1 << 20) {
        Ok(Published::Existing(x)) => assert_eq!(x, first),
        other => panic!("{other:?}"),
    }
    assert_eq!(s.head, 1);
    assert_eq!(s.received, 1);
    let conflict = s.publish(publish("a", b"y"), Vec::new(), None, 300, 65536, 10, 1 << 20).unwrap_err();
    assert_eq!(conflict.code, FaultCode::KeyConflict);
    assert_eq!(conflict.message, "same key has different content");
}

#[test]
fn empty_or_long_keys_and_large_payloads_are_refused() {
    let mut s = stream(false);
    let e = s.publish(publish("", b"x"), Vec::new(), None, 1, 65536, 10, 1 << 20).unwrap_err();
    assert_eq!(e.code, FaultCode::Limit);
    let long = "k".repeat(257);
    let e = s.publish(publish(&long, b"x"), Vec::new(), None, 1, 65536, 10, 1 << 20).unwrap_err();
    assert_eq!(e.code, FaultCode::Limit);
    let e = s.publish(publish("a", &[0u8; 11]), Vec::new(), None, 1, 10, 10, 1 << 20).unwrap_err();
    assert_eq!(e.message, "payload or idempotency key exceeds limit");
    assert_eq!(s.head, 0);
    assert_eq!(s.received, 0);
}

#[test]
fn record_cap_evicts_oldest_and_reads_report_the_overwritten_run() {
    let mut s = stream(false);
    for k in ["a", "b", "c"] {
        buffered(s.publish(publish(k, b"x"), Vec::new(), None, 1, 65536, 2, 1 << 20));
    }
    assert_eq!(s.buffer.len(), 2);
    assert_eq!(s.evicted, 1);
    assert_eq!(s.oldest(), 2);
    let plan = s.plan_read(1, 10, Some("e1")).unwrap();
    assert_eq!(plan.start, 2);
    let sizes = vec![10, 10];
    let batch = finish_read(plan, None, &sizes).unwrap();
    assert_eq!(batch.records.iter().map(|r| r.seq).collect::<Vec<_>>(), vec![2, 3]);
    assert_eq!(batch.next, 4);
    assert_eq!(batch.gap, Some((1, 1)));
}

#[test]
fn byte_cap_counts_payload_bytes() {
    let mut s = stream(false);
    buffered(s.publish(publish("a", &[1u8; 6]), Vec::new(), None, 1, 8, 100, 10));
    buffered(s.publish(publish("b", &[2u8; 6]), Vec::new(), None, 1, 8, 100, 10));
    assert_eq!(s.buffer.len(), 1);
    assert_eq!(s.bytes, 6);
    assert_eq!(s.evicted, 1);
}

#[test]
fn read_cursor_and_epoch_are_checked() {
    let mut s = stream(false);
    for k in ["a", "b", "c"] {
        buffered(s.publish(publish(k, b"x"), Vec::new(), None, 1, 65536, 10, 1 << 20));
    }
    let e = s.plan_read(1, 10, Some("other")).unwrap_err();
    assert_eq!(e.code, FaultCode::EpochMismatch);
    let e = s.plan_read(5, 10, None).unwrap_err();
    assert_eq!(e.code, FaultCode::CursorAhead);
    assert_eq!(e.message, "head is 3");
    let tail = s.plan_read(0, 10, None).unwrap();
    assert_eq!(tail.start, 4);
    assert!(matches!(&tail.source, ReadSource::Buffer(v) if v.is_empty()));
    let batch = finish_read(tail, None, &Vec::new()).unwrap();
    assert!(batch.records.is_empty());
    assert_eq!(batch.next, 4);
    let limited = s.plan_read(2, 1, None).unwrap();
    match &limited.source {
        ReadSource::Buffer(v) => assert_eq!(v.iter().map(|r| r.seq).collect::<Vec<_>>(), vec![2]),
        other => panic!("{other:?}"),
    }
}

#[test]
fn saved_stream_without_store_refuses_writes_and_reads() {
    let mut s = stream(true);
    let e = s.publish(publish("a", b"x"), Vec::new(), None, 1, 65536, 10, 1 << 20).unwrap_err();
    assert_eq!(e.code, FaultCode::StorageBlocked);
    assert_eq!(e.message, "saved stream storage is unavailable");
    assert_eq!(s.received, 1);
    assert_eq!(s.head, 0);
    let e = s.plan_read(1, 10, None).unwrap_err();
    assert_eq!(e.code, FaultCode::HistoryUnavailable);
    assert_eq!(e.message, "saved history is unavailable");
}

#[test]
fn attached_store_write_failure_blocks_until_resumed() {
    let mut s = stream(true);
    s.detach().unwrap();
    s.reattach(Ok(("e2".to_string(), 5))).unwrap();
    assert_eq!(s.head, 5);
    assert_eq!(s.epoch, "e2");
    assert_eq!(s.oldest(), 1);
    let pending = match s.publish(publish("a", b"x"), Vec::new(), Some(Ok(None)), 9, 65536, 10, 1 << 20) {
        Ok(Published::Pending(r)) => r,
        other => panic!("{other:?}"),
    };
    assert_eq!(pending.seq, 6);
    assert_eq!(pending.epoch, "e2");
    assert_eq!(s.head, 5);
    let written = s.settle(pending, Ok(()), 10, 1 << 20).unwrap();
    assert_eq!(written.seq, 6);
    assert_eq!(s.head, 6);
    let next = match s.publish(publish("b", b"y"), Vec::new(), Some(Ok(None)), 9, 65536, 10, 1 << 20) {
        Ok(Published::Pending(r)) => r,
        other => panic!("{other:?}"),
    };
    let e = s
        .settle(next, Err("commit_unknown: SQLite commit did not return success".to_string()), 10, 1 << 20)
        .unwrap_err();
    assert_eq!(e.code, FaultCode::CommitUnknown);
    assert_eq!(s.uncommitted_key.as_deref(), Some("b"));
    assert_eq!(s.head, 6);
    let e = s.publish(publish("c", b"z"), Vec::new(), Some(Ok(None)), 9, 65536, 10, 1 << 20).unwrap_err();
    assert_eq!(e.code, FaultCode::StorageBlocked);
    assert_eq!(e.message, "commit_unknown: SQLite commit did not return success");
    let failed = s.reattach(Err("locked".to_string())).unwrap_err();
    assert_eq!(failed.code, FaultCode::StorageBlocked);
    s.reattach(Ok(("e2".to_string(), 6))).unwrap();
    assert!(s.blocked.is_none());
    assert!(s.uncommitted_key.is_none());
}

#[test]
fn other_store_failures_block_without_commit_unknown() {
    let mut s = stream(true);
    s.reattach(Ok(("e1".to_string(), 0))).unwrap();
    let r = match s.publish(publish("a", b"x"), Vec::new(), Some(Ok(None)), 1, 65536, 10, 1 << 20) {
        Ok(Published::Pending(r)) => r,
        other => panic!("{other:?}"),
    };
    let e = s.settle(r, Err("disk full".to_string()), 10, 1 << 20).unwrap_err();
    assert_eq!(e.code, FaultCode::StorageBlocked);
    let e = s
        .publish(publish("a", b"x"), Vec::new(), Some(Err("io".to_string())), 1, 65536, 10, 1 << 20)
        .unwrap_err();
    assert_eq!(e.code, FaultCode::HistoryUnavailable);
    assert_eq!(e.message, "io");
}

#[test]
fn stored_key_is_idempotent_across_the_store() {
    let mut s = stream(true);
    s.reattach(Ok(("e1".to_string(), 3))).unwrap();
    let mut known = record(2);
    known.key = "a".to_string();
    known.payload = b"x".to_vec();
    known.source_ts_ns = Some(7);
    match s.publish(publish("a", b"x"), Vec::new(), Some(Ok(Some(known.clone()))), 1, 65536, 10, 1 << 20) {
        Ok(Published::Existing(r)) => assert_eq!(r, known),
        other => panic!("{other:?}"),
    }
    assert_eq!(s.received, 0);
}

#[test]
fn stream_without_history_cannot_resume() {
    let mut s = stream(false);
    let e = s.detach().unwrap_err();
    assert_eq!(e.code, FaultCode::NotSaved);
    assert_eq!(e.message, "stream does not use persistence");
}

fn plan(from: u64, start: u64, head: u64) -> ReadPlan {
    ReadPlan { from, start, oldest: 1, head, limit: 10, source: ReadSource::Store }
}

#[test]
fn stored_reads_are_bounded_and_must_be_contiguous() {
    let sizes = vec![600000, 10];
    let b = finish_read(plan(1, 1, 5), Some(Ok(vec![record(1), record(2)])), &sizes).unwrap();
    assert_eq!(b.records.len(), 1);
    assert_eq!(b.next, 2);
    let sizes = vec![100, 200, 300];
    let b = finish_read(plan(1, 1, 5), Some(Ok(vec![record(1), record(2), record(3)])), &sizes).unwrap();
    assert_eq!(b.records.len(), 3);
    assert_eq!(b.next, 4);
    assert_eq!(b.gap, None);
    let sizes = vec![100, 200];
    let e = finish_read(plan(1, 1, 5), Some(Ok(vec![record(1), record(3)])), &sizes).unwrap_err();
    assert_eq!(e.code, FaultCode::HistoryGap);
    assert_eq!(e.message, "expected 2, found 3");
    let e = finish_read(plan(2, 2, 5), Some(Ok(Vec::new())), &Vec::new()).unwrap_err();
    assert_eq!(e.code, FaultCode::HistoryUnavailable);
    assert_eq!(e.message, "record within known head is missing");
    let e = finish_read(plan(2, 2, 5), Some(Err("gone".to_string())), &Vec::new()).unwrap_err();
    assert_eq!(e.message, "gone");
}

#[test]
fn infix_and_pair_comparisons() {
    assert!(contains_infix("x commit_unknown y", "commit_unknown"));
    assert!(!contains_infix("commit_unknow", "commit_unknown"));
    assert!(contains_infix("abc", ""));
    assert!(pairs_eq(&vec![("a".to_string(), 1)], &vec![("a".to_string(), 1)]));
    assert!(!pairs_eq(&vec![("a".to_string(), 1)], &vec![("a".to_string(), 2)]));
}

#[test]
fn runtime_patch_changes_only_buffer_options() {
    let base = CoreOptions::default();
    let patched = patch_options(
        base,
        &vec![("buffer_records".to_string(), Some(10)), ("read_batch_records".to_string(), Some(8))],
    )
    .unwrap();
    assert_eq!(patched.buffer_records, 10);
    assert_eq!(patched.read_batch_records, 8);
    assert_eq!(patched.buffer_bytes, base.buffer_bytes);
    let e = patch_options(base, &vec![("max_payload_bytes".to_string(), Some(10))]).unwrap_err();
    assert_eq!(e.code, FaultCode::RestartRequired);
    assert_eq!(e.message, "max_payload_bytes requires configuration file and restart");
    let e = patch_options(base, &vec![("buffer_bytes".to_string(), None)]).unwrap_err();
    assert_eq!(e.message, "positive integer required");
    let e = patch_options(base, &vec![("buffer_bytes".to_string(), Some(1024))]).unwrap_err();
    assert_eq!(e.code, FaultCode::InvalidRequest);
    assert_eq!(e.message, "Core limits out of range");
    assert!(check_saved_options(&base).is_ok());
}

#[test]
fn derived_records_name_exactly_their_parents_at_reached_sequences() {
    let streams = vec![
        ("a".to_string(), "ea".to_string(), 5),
        ("b".to_string(), "eb".to_string(), 2),
    ];
    let parents = vec!["a".to_string(), "b".to_string()];
    let up = vec![("a".to_string(), 5), ("b".to_string(), 1)];
    let epochs = parent_epochs("p", "p", &parents, &up, &streams).unwrap();
    assert_eq!(epochs, vec![("a".to_string(), "ea".to_string()), ("b".to_string(), "eb".to_string())]);
    let e = parent_epochs("q", "p", &parents, &up, &streams).unwrap_err();
    assert_eq!(e.code, FaultCode::PermissionDenied);
    let e = parent_epochs("p", "p", &parents, &vec![("a".to_string(), 1)], &streams).unwrap_err();
    assert_eq!(e.code, FaultCode::InvalidParents);
    let e = parent_epochs("p", "p", &parents, &vec![("a".to_string(), 6), ("b".to_string(), 1)], &streams)
        .unwrap_err();
    assert_eq!(e.code, FaultCode::InvalidParentCursor);
    assert_eq!(e.message, "a");
    let e = parent_epochs("p", "p", &parents, &vec![("a".to_string(), 0), ("b".to_string(), 1)], &streams)
        .unwrap_err();
    assert_eq!(e.code, FaultCode::InvalidParentCursor);
    let only_a = vec![("a".to_string(), "ea".to_string(), 5)];
    let e = parent_epochs("p", "p", &parents, &vec![("a".to_string(), 9), ("b".to_string(), 1)], &only_a)
        .unwrap_err();
    assert_eq!(e.code, FaultCode::UnknownStream);
    assert_eq!(e.message, "b");
    assert!(parent_epochs("p", "p", &Vec::new(), &Vec::new(), &streams).unwrap().is_empty());
}

#[test]
fn records_compare_by_every_field() {
    let a = record(4);
    let mut b = record(4);
    assert!(a.same(&b));
    b.channel = Some("c".to_string());
    assert!(!a.same(&b));
    let mut c = record(4);
    c.upstream_epochs = vec![("p".to_string(), "e".to_string())];
    assert!(!a.same(&c));
}
