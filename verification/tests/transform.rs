use log_print::record::Record;
use log_print::reorder::{Config, ConfigError, Processor, ReorderError};
use serde_json::{Number, Value};

fn record(seq: u64) -> Record {
    Record {
        stream: "original".into(),
        epoch: "e".into(),
        seq,
        key: "key".into(),
        payload: vec![0, 255, 10],
        source_ts_ns: None,
        observed_ts_ns: 42,
        upstream: vec![],
        upstream_epochs: vec![],
        source_seq: Some(seq),
        channel: None,
    }
}

/// The length of the record's JSON encoding.
fn encoded(r: &Record) -> usize {
    let mut m = serde_json::Map::new();
    m.insert("stream".into(), Value::String(r.stream.clone()));
    m.insert("epoch".into(), Value::String(r.epoch.clone()));
    m.insert("seq".into(), Value::Number(Number::from(r.seq)));
    m.insert("key".into(), Value::String(r.key.clone()));
    m.insert("payload".into(), Value::Array(r.payload.iter().map(|b| Value::Number(Number::from(*b))).collect()));
    m.insert("source_ts_ns".into(), r.source_ts_ns.map_or(Value::Null, |t| Value::Number(Number::from(t))));
    m.insert("observed_ts_ns".into(), Value::Number(Number::from(r.observed_ts_ns)));
    let mut up = serde_json::Map::new();
    for (k, v) in &r.upstream {
        up.insert(k.clone(), Value::Number(Number::from(*v)));
    }
    m.insert("upstream".into(), Value::Object(up));
    let mut ue = serde_json::Map::new();
    for (k, v) in &r.upstream_epochs {
        ue.insert(k.clone(), Value::String(v.clone()));
    }
    m.insert("upstream_epochs".into(), Value::Object(ue));
    m.insert("source_seq".into(), r.source_seq.map_or(Value::Null, |t| Value::Number(Number::from(t))));
    m.insert("channel".into(), r.channel.clone().map_or(Value::Null, Value::String));
    serde_json::to_vec(&Value::Object(m)).unwrap().len()
}

fn feed(p: &mut Processor, r: Record, now: u64) -> Result<Vec<Record>, ReorderError> {
    let n = encoded(&r);
    p.feed(r, n, now)
}

fn config() -> Config {
    Config { reorder: true, ..Config::default() }
}

fn seq(records: Vec<Record>) -> Vec<u64> {
    records.into_iter().map(|r| r.source_seq.unwrap()).collect()
}

const NOW: u64 = 1_000_000_000;
const MS: u64 = 1_000_000;

#[test]
fn source_reordering_preserves_original_content() {
    let mut p = Processor::new(&config());
    assert!(feed(&mut p, record(3), NOW).unwrap().is_empty());
    assert_eq!(seq(feed(&mut p, record(1), NOW).unwrap()), vec![1]);
    let out = feed(&mut p, record(2), NOW).unwrap();
    assert_eq!(out[0], record(2));
    assert_eq!(seq(out), vec![2, 3]);
    assert_eq!(p.pending(), (0, 0));
}

#[test]
fn exact_capacity_does_not_drop_the_missing_record_when_it_arrives() {
    let mut p = Processor::new(&Config { max_records: 2, ..config() });
    feed(&mut p, record(2), NOW).unwrap();
    feed(&mut p, record(3), NOW).unwrap();
    assert_eq!(seq(feed(&mut p, record(1), NOW).unwrap()), vec![1, 2, 3]);
    assert_eq!(p.stats.skipped, 0);
}

#[test]
fn derived_channel_sequences_are_independent() {
    let mut p = Processor::new(&config());
    assert_eq!(p.next_source_sequence(Some("out".into())).unwrap(), 1);
    assert_eq!(p.next_source_sequence(Some("err".into())).unwrap(), 1);
    assert_eq!(p.next_source_sequence(Some("out".into())).unwrap(), 2);
}

#[test]
fn gaps_flush_after_window_and_late_duplicates_are_dropped() {
    let c = config();
    let mut p = Processor::new(&c);
    feed(&mut p, record(4), NOW).unwrap();
    assert!(p.expire(NOW + 99 * MS).is_empty());
    assert_eq!(seq(p.expire(NOW + 100 * MS)), vec![4]);
    assert_eq!(p.stats.skipped, 3);
    assert!(feed(&mut p, record(2), NOW).unwrap().is_empty());
    assert_eq!(p.stats.duplicates, 1);
}

#[test]
fn pending_duplicate_first_wins_and_stop_flushes_sorted() {
    let mut p = Processor::new(&config());
    feed(&mut p, record(3), NOW).unwrap();
    let mut duplicate = record(3);
    duplicate.payload = b"different".to_vec();
    feed(&mut p, duplicate, NOW).unwrap();
    feed(&mut p, record(2), NOW).unwrap();
    let out = p.flush();
    assert_eq!(out[1].payload, record(3).payload);
    assert_eq!(seq(out), vec![2, 3]);
    assert_eq!(p.stats.duplicates, 1);
    assert_eq!(p.stats.skipped, 1);
}

#[test]
fn pressure_is_bounded_and_channels_have_independent_source_order() {
    let c = Config { max_records: 2, ..config() };
    let mut p = Processor::new(&c);
    feed(&mut p, record(3), NOW).unwrap();
    feed(&mut p, record(5), NOW).unwrap();
    assert_eq!(seq(feed(&mut p, record(7), NOW).unwrap()), vec![3]);
    assert!(p.pending().0 <= 2);
    let mut a = record(1);
    a.channel = Some("stdout".into());
    let mut b = record(1);
    b.channel = Some("stderr".into());
    assert_eq!(feed(&mut p, a, NOW).unwrap().last().unwrap().channel.as_deref(), Some("stdout"));
    assert_eq!(feed(&mut p, b, NOW).unwrap().last().unwrap().channel.as_deref(), Some("stderr"));
}

#[test]
fn numbering_and_timestamp_have_explicit_fallback_without_mutation() {
    let c = Config { number: true, timestamp: true, ..Config::default() };
    let mut p = Processor::new(&c);
    let r = record(1);
    assert_eq!(p.decorate(&r).unwrap(), [b"[n=1] [ts_ns=42] ".as_slice(), &r.payload].concat());
    assert_eq!(r.payload, vec![0, 255, 10]);
    let mut next = r.clone();
    next.source_ts_ns = Some(99);
    assert!(p.decorate(&next).unwrap().starts_with(b"[n=2] [ts_ns=99] "));
}

#[test]
fn rejects_oversize_payload_and_excess_channel_states() {
    let c = Config { number: true, max_channels: 1, ..config() };
    let mut p = Processor::new(&c);
    feed(&mut p, record(1), NOW).unwrap();
    let mut other = record(1);
    other.channel = Some("other".into());
    assert!(feed(&mut p, other, NOW).is_err());
    let mut large = record(2);
    large.payload = vec![0; log_print::limits::MAX_PAYLOAD];
    assert!(p.decorate(&large).is_err());
}

#[test]
fn reorder_config_validation_names_the_broken_rule() {
    assert_eq!(Config::default().validate(), Ok(()));
    let empty = Config { streams: vec!["a".into(), String::new()], ..Config::default() };
    assert_eq!(empty.validate(), Err(ConfigError::EmptyStreamName));
    assert_eq!(ConfigError::EmptyStreamName.message(), "stream names must not be empty");
    for bad in [
        Config { max_records: 0, ..Config::default() },
        Config { max_records: 4097, ..Config::default() },
        Config { max_bytes: log_print::limits::MAX_PAYLOAD - 1, ..Config::default() },
        Config { max_delay_ms: 60001, ..Config::default() },
        Config { max_channels: 0, ..Config::default() },
    ] {
        assert_eq!(bad.validate(), Err(ConfigError::InvalidLimits));
    }
}

#[test]
fn pass_through_and_missing_sequence_are_counted_not_reordered() {
    let mut plain = Processor::new(&Config::default());
    assert_eq!(seq(feed(&mut plain, record(9), NOW).unwrap()), vec![9]);
    let mut p = Processor::new(&config());
    let mut unsequenced = record(5);
    unsequenced.source_seq = None;
    assert_eq!(feed(&mut p, unsequenced.clone(), NOW).unwrap(), vec![unsequenced]);
    assert_eq!(p.stats.missing_source_seq, 1);
    assert_eq!(feed(&mut p, record(0), NOW), Err(ReorderError::SourceSequenceOutOfRange));
    assert_eq!(feed(&mut p, record(u64::MAX), NOW), Err(ReorderError::SourceSequenceOutOfRange));
}

#[test]
fn every_fed_record_is_released_waiting_or_a_duplicate() {
    let mut p = Processor::new(&config());
    let mut released = 0;
    for s in [5, 3, 3, 1, 2, 4, 9] {
        released += feed(&mut p, record(s), NOW).unwrap().len();
    }
    let (waiting, _) = p.pending();
    assert_eq!(released + waiting + p.stats.duplicates as usize, 7);
    released += p.flush().len();
    assert_eq!(p.pending(), (0, 0));
    assert_eq!(released + p.stats.duplicates as usize, 7);
    assert_eq!(p.stats.skipped, 3);
}

#[test]
fn record_too_large_for_the_byte_budget_is_refused() {
    let mut p = Processor::new(&Config { max_bytes: log_print::limits::MAX_PAYLOAD, ..config() });
    feed(&mut p, record(1), NOW).unwrap();
    assert_eq!(p.feed(record(3), log_print::limits::MAX_PAYLOAD + 1, NOW), Err(ReorderError::RecordTooLarge));
    assert_eq!(p.pending(), (0, 0));
}

#[test]
fn a_channel_releases_strictly_increasing_sequences_across_calls() {
    let mut p = Processor::new(&config());
    let mut released = Vec::new();
    for s in [3u64, 1, 5, 2, 2, 1, 4, 8, 7] {
        released.extend(seq(feed(&mut p, record(s), NOW).unwrap()));
    }
    released.extend(seq(p.flush()));
    assert_eq!(released, vec![1, 2, 3, 4, 5, 7, 8]);
    assert!(released.windows(2).all(|w| w[0] < w[1]));
    let (records, bytes) = p.pending();
    assert_eq!((records, bytes), (0, 0));
}
