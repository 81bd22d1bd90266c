use log_print::config::{validate, Config, ConfigError, PluginSpec, StreamSpec};
use log_print::proto::{CoreOptions, Role, TransportKind};
use log_print::record::{FaultCode, Record};
use log_print::registry::{Fault, Operation, Publish, Registry, RuntimeConfig, StartError};
use serde_json::{Number, Value};

fn spec(id: &str, role: Role, alias: Option<&str>, reads: &[&str]) -> PluginSpec {
    PluginSpec {
        id: id.into(),
        role,
        bin: "test".into(),
        args: vec![],
        autostart: false,
        reads: reads.iter().map(|s| s.to_string()).collect(),
        streams: alias
            .into_iter()
            .map(|alias| StreamSpec { id: alias.into(), description: format!("description {id}"), parents: vec![] })
            .collect(),
    }
}

fn runtime(transport: TransportKind) -> RuntimeConfig {
    let plugins = vec![
        spec("a", Role::Input, Some("alpha"), &[]),
        spec("b", Role::Input, Some("beta"), &[]),
        spec("out", Role::Output, None, &["alpha"]),
        spec("other", Role::Output, None, &["alpha", "beta"]),
        spec("derive", Role::Output, None, &["alpha"]),
    ];
    RuntimeConfig {
        plugin_tokens: plugins.iter().map(|p| (p.id.clone(), format!("{}-token", p.id))).collect(),
        config: Config { core: CoreOptions { transport, ..CoreOptions::default() }, plugins },
        admin_token: "admin-token".into(),
    }
}

fn encoded(r: &Record) -> usize {
    let mut m = serde_json::Map::new();
    m.insert("stream".into(), Value::String(r.stream.clone()));
    m.insert("epoch".into(), Value::String(r.epoch.clone()));
    m.insert("seq".into(), Value::Number(Number::from(r.seq)));
    m.insert("key".into(), Value::String(r.key.clone()));
    m.insert("payload".into(), Value::Array(r.payload.iter().map(|b| Value::Number(Number::from(*b))).collect()));
    m.insert("source_ts_ns".into(), r.source_ts_ns.map_or(Value::Null, |t| Value::Number(Number::from(t))));
    m.insert("observed_ts_ns".into(), Value::Number(Number::from(r.observed_ts_ns)));
    let mut up = serde_json::Map::new();
    for (k, v) in &r.upstream {
        up.insert(k.clone(), Value::Number(Number::from(*v)));
    }
    m.insert("upstream".into(), Value::Object(up));
    let mut ue = serde_json::Map::new();
    for (k, v) in &r.upstream_epochs {
        ue.insert(k.clone(), Value::String(v.clone()));
    }
    m.insert("upstream_epochs".into(), Value::Object(ue));
    m.insert("source_seq".into(), r.source_seq.map_or(Value::Null, |t| Value::Number(Number::from(t))));
    m.insert("channel".into(), r.channel.clone().map_or(Value::Null, Value::String));
    serde_json::to_vec(&Value::Object(m)).unwrap().len()
}

fn claim(core: &mut Registry, plugin: &str, generation: u64) -> String {
    let k = core.take_writer(plugin, generation).unwrap();
    core.status(k).id
}

fn request(stream: &str, key: &str, source_seq: Option<u64>, payload: &[u8], upstream: Vec<(String, u64)>) -> Publish {
    Publish {
        stream: stream.into(),
        key: key.into(),
        payload: payload.to_vec(),
        source_ts_ns: None,
        upstream,
        source_seq,
        channel: None,
    }
}

fn publish_request(core: &mut Registry, plugin: &str, generation: u64, p: Publish) -> Result<Record, Fault> {
    let (k, record) = core.stage_publish(plugin, generation, p)?;
    let size = encoded(&record);
    core.commit_publish(k, record, size)
}

fn publish(core: &mut Registry, plugin: &str, generation: u64, id: &str, source_seq: u64, payload: &[u8]) -> Result<Record, Fault> {
    publish_request(core, plugin, generation, request(id, "same opaque key", Some(source_seq), payload, vec![]))
}

fn head(core: &Registry, id: &str) -> u64 {
    core.status(core.find_stream(id).unwrap()).head
}

fn is_uuid(s: &str) -> bool {
    uuid::Uuid::parse_str(s).is_ok()
}

#[test]
fn uuid_identity_and_receive_order_are_independent_of_alias_source_sequence_and_key() {
    let mut core = Registry::new(runtime(TransportKind::Tcp)).unwrap();
    let id = claim(&mut core, "a", 1);
    assert_ne!(id, "alpha");
    assert!(is_uuid(&id));
    for seq in [9, 1, 9] {
        publish(&mut core, "a", 1, &id, seq, b"x").unwrap();
    }
    let batch = core.read("out", &id, None).unwrap();
    assert_eq!(batch.records.iter().map(|r| r.source_seq.unwrap()).collect::<Vec<_>>(), [9, 1, 9]);
    assert_eq!(batch.records.iter().map(|r| r.seq).collect::<Vec<_>>(), [1, 2, 3]);
    assert!(core.find_stream("alpha").is_none());
    let mut restarted = Registry::new(runtime(TransportKind::Tcp)).unwrap();
    let fresh = claim(&mut restarted, "a", 1);
    assert_ne!(id, fresh);
    assert_eq!(head(&restarted, &fresh), 0);
}

#[test]
fn record_and_byte_caps_roll_independently_and_isolate_streams() {
    let mut r = runtime(TransportKind::Tcp);
    r.config.core.buffer_records = 2;
    r.config.core.buffer_bytes = 1500;
    let mut core = Registry::new(r).unwrap();
    let a = claim(&mut core, "a", 1);
    let b = claim(&mut core, "b", 2);
    publish(&mut core, "b", 2, &b, 1, b"untouched").unwrap();
    for seq in 1..=4 {
        publish(&mut core, "a", 1, &a, seq, b"one").unwrap();
    }
    assert_eq!(core.status(core.find_stream(&a).unwrap()).oldest, 3);
    publish(&mut core, "a", 1, &a, 5, &vec![255; 280]).unwrap();
    let s = core.status(core.find_stream(&a).unwrap());
    assert!(s.buffer_bytes <= 1500);
    assert_eq!(s.buffer_records, 1, "serialized metadata and expanded byte payload both count against the byte cap");
    assert_eq!(s.oldest, 5);
    assert_eq!(core.status(core.find_stream(&b).unwrap()).buffer_records, 1);
}

#[test]
fn oversized_record_rejection_is_atomic_and_foreign_writers_are_rejected() {
    let mut r = runtime(TransportKind::Tcp);
    r.config.core.buffer_bytes = 500;
    let mut core = Registry::new(r).unwrap();
    let id = claim(&mut core, "a", 8);
    assert!(publish(&mut core, "b", 8, &id, 1, b"bad").is_err());
    assert!(publish(&mut core, "a", 7, &id, 1, b"stale generation").is_err());
    assert!(publish(&mut core, "a", 8, &id, 1, &vec![255; 300]).is_err());
    assert_eq!(head(&core, &id), 0);
    assert!(core.can_read("a", &id).is_err());
    let beta = claim(&mut core, "b", 2);
    assert!(core.can_read("out", &beta).is_err());
}

#[test]
fn description_does_not_change_identity_or_authorization_and_static_options_reject_patch() {
    let mut core = Registry::new(runtime(TransportKind::Tcp)).unwrap();
    let id = claim(&mut core, "a", 1);
    let k = core.describe("a", 1, &id, "中文备注").unwrap();
    let updated = core.status(k);
    assert_eq!(updated.id, id);
    assert_eq!(updated.description, "中文备注");
    assert!(core.describe("b", 2, &id, "intruder").is_err());
    assert_eq!(log_print::registry::operation("config.patch"), Operation::ConfigPatch);
    assert_eq!(log_print::registry::restart_required().code, FaultCode::RestartRequired);
    assert!(core.create("a", 1, "second".into(), vec![]).is_err());
    assert!(core.claim("b", 2, &id).is_err());
}

#[test]
fn derived_stream_requires_authorized_parents_and_never_writes_original() {
    let mut core = Registry::new(runtime(TransportKind::Tcp)).unwrap();
    let id = claim(&mut core, "a", 1);
    publish(&mut core, "a", 1, &id, 1, b"raw").unwrap();
    let k = core.create("derive", 3, "converted".into(), vec![id.clone()]).unwrap();
    let derived = core.status(k).id;
    assert_ne!(derived, id);
    assert!(publish_request(&mut core, "derive", 3, request(&derived, "", None, &[1], vec![])).is_err());
    let result = publish_request(&mut core, "derive", 3, request(&derived, "", None, &[1], vec![(id.clone(), 1)])).unwrap();
    assert_eq!(result.upstream, vec![(id.clone(), 1)]);
    assert_eq!(head(&core, &id), 1);
    assert!(core.can_read("derive", &derived).is_err());
}

#[test]
fn config_rejects_old_save_fields_multiple_input_streams_and_feedback_cycles() {
    let mut r = runtime(TransportKind::Tcp);
    r.config.plugins[0].streams.push(StreamSpec { id: "extra".into(), description: String::new(), parents: vec![] });
    assert_eq!(validate(&r.config), Err(ConfigError::TooManyStreams));
    let mut r = runtime(TransportKind::Tcp);
    r.config.plugins[0].role = Role::Output;
    r.config.plugins[0].reads = vec!["beta".into()];
    r.config.plugins[1].role = Role::Output;
    r.config.plugins[1].reads = vec!["alpha".into()];
    assert_eq!(validate(&r.config), Err(ConfigError::StreamCycle));
}

#[test]
fn runtime_association_detects_process_feedback_even_without_declared_parent_metadata() {
    let mut r = runtime(TransportKind::Tcp);
    r.config.plugins.push(spec("first", Role::Output, Some("first-stream"), &["alpha"]));
    r.config.plugins.push(spec("second", Role::Output, Some("second-stream"), &["first-stream"]));
    for id in ["first", "second"] {
        r.plugin_tokens.push((id.into(), format!("{id}-token")));
    }
    let mut core = Registry::new(r).unwrap();
    let second = core.status(core.own("second").unwrap()).id;
    let err = core.attach("__admin__", "first", &second, false, 0).unwrap_err();
    assert_eq!(err.code, FaultCode::StreamCycle);
    assert_eq!(core.read_streams("first"), vec![core.status(core.own("a").unwrap()).id]);
}

#[test]
fn multisource_derived_records_reference_only_their_actual_declared_source() {
    let mut core = Registry::new(runtime(TransportKind::Tcp)).unwrap();
    let a = claim(&mut core, "a", 1);
    let b = claim(&mut core, "b", 2);
    publish(&mut core, "a", 1, &a, 1, b"a").unwrap();
    publish(&mut core, "b", 2, &b, 1, b"b").unwrap();
    let k = core.create("other", 3, "two sources".into(), vec![a.clone(), b.clone()]).unwrap();
    let id = core.status(k).id;
    for source in [&a, &b] {
        let record = publish_request(&mut core, "other", 3, request(&id, "", None, &[1], vec![(source.clone(), 1)])).unwrap();
        assert_eq!(record.upstream.len(), 1);
    }
    assert_eq!(head(&core, &id), 2);
    assert!(publish_request(&mut core, "other", 3, request(&id, "", None, &[1], vec![("foreign".into(), 1)])).is_err());
}

#[test]
fn startup_refuses_invalid_configuration_and_empty_tokens() {
    let mut r = runtime(TransportKind::Tcp);
    r.admin_token = String::new();
    assert!(matches!(Registry::new(r), Err(StartError::EmptyToken)));
    let mut r = runtime(TransportKind::Tcp);
    r.plugin_tokens[1].1 = String::new();
    assert!(matches!(Registry::new(r), Err(StartError::EmptyToken)));
    let mut r = runtime(TransportKind::Tcp);
    r.config.core.read_batch_records = 65;
    assert!(matches!(Registry::new(r), Err(StartError::Config(ConfigError::CoreLimits))));
}

#[test]
fn configured_streams_start_empty_with_resolved_parents() {
    let mut r = runtime(TransportKind::Tcp);
    r.config.plugins.push(spec("conv", Role::Output, Some("converted"), &["alpha"]));
    r.config.plugins[5].streams[0].parents = vec!["alpha".into()];
    r.plugin_tokens.push(("conv".into(), "conv-token".into()));
    let core = Registry::new(r).unwrap();
    assert_eq!(core.stream_count(), 3);
    let alpha = core.status(core.own("a").unwrap());
    let conv = core.status(core.own("conv").unwrap());
    assert_eq!(alpha.alias.as_deref(), Some("alpha"));
    assert_eq!(alpha.head, 0);
    assert_eq!(alpha.oldest, 1);
    assert!(!alpha.writer_active);
    assert_eq!(conv.parents, vec![alpha.id.clone()]);
    assert!(is_uuid(&alpha.epoch));
    assert_eq!(core.resolve_alias("alpha"), alpha.id);
    assert_eq!(core.resolve_alias("zeta"), "zeta");
}

#[test]
fn greeting_checks_protocol_and_tokens() {
    let core = Registry::new(runtime(TransportKind::Tcp)).unwrap();
    assert!(core.authenticate("log-print/2", "a", "a-token").is_ok());
    assert!(core.authenticate("log-print/2", "__admin__", "admin-token").is_ok());
    assert_eq!(core.authenticate("log-print/1", "a", "a-token").unwrap_err().code, FaultCode::VersionMismatch);
    assert_eq!(core.authenticate("log-print/2", "a", "b-token").unwrap_err().code, FaultCode::AuthenticationFailed);
    assert_eq!(core.authenticate("log-print/2", "__admin__", "a-token").unwrap_err().code, FaultCode::AuthenticationFailed);
    assert_eq!(core.authenticate("log-print/2", "ghost", "x").unwrap_err().code, FaultCode::AuthenticationFailed);
}

#[test]
fn read_limits_and_subscription_start() {
    let mut core = Registry::new(runtime(TransportKind::Udp)).unwrap();
    let id = claim(&mut core, "a", 1);
    for seq in 1..=3 {
        publish(&mut core, "a", 1, &id, seq, b"abc").unwrap();
    }
    assert_eq!(core.read("out", &id, Some(0)).unwrap_err().code, FaultCode::Limit);
    assert_eq!(core.read("out", &id, Some(65)).unwrap_err().code, FaultCode::Limit);
    let batch = core.read("out", &id, Some(2)).unwrap();
    assert_eq!(batch.records.len(), 2);
    assert_eq!((batch.from, batch.next, batch.head, batch.oldest), (1, 3, 3, 1));
    assert_eq!(core.read("ghost", &id, None).unwrap_err().code, FaultCode::PermissionDenied);
    assert_eq!(core.read("out", "nope", None).unwrap_err().code, FaultCode::UnknownStream);
    let (k, next) = core.subscribe("out", &id, None).unwrap();
    assert_eq!(next, 1);
    assert_eq!(core.deliver(k, 3).iter().map(|r| r.seq).collect::<Vec<_>>(), vec![3]);
    assert!(core.deliver(k, 9).is_empty());
    assert_eq!(core.subscribe("out", &id, Some(65)).unwrap_err().code, FaultCode::Limit);
}

#[test]
fn writer_leases_follow_connections() {
    let mut core = Registry::new(runtime(TransportKind::Tcp)).unwrap();
    let id = claim(&mut core, "a", 4);
    assert_eq!(core.claim("a", 5, &id).unwrap_err().code, FaultCode::WriterOccupied);
    core.release_writer("a", 3);
    assert!(core.status(core.find_stream(&id).unwrap()).writer_active);
    core.release_writer("a", 4);
    assert!(!core.status(core.find_stream(&id).unwrap()).writer_active);
    assert!(core.claim("a", 5, &id).is_ok());
    assert!(core.take_writer("out", 1).is_none());
}

#[test]
fn attach_and_prepare_require_management_and_offline_outputs() {
    let mut core = Registry::new(runtime(TransportKind::Tcp)).unwrap();
    let b = core.status(core.own("b").unwrap()).id;
    assert_eq!(core.attach("out", "out", &b, false, 0).unwrap_err().code, FaultCode::PermissionDenied);
    assert_eq!(core.attach("__admin__", "a", &b, false, 0).unwrap_err().code, FaultCode::PermissionDenied);
    assert_eq!(core.attach("__admin__", "out", &b, true, 0).unwrap_err().code, FaultCode::AlreadyConnected);
    assert_eq!(core.attach("__admin__", "out", &b, false, 1).unwrap_err().code, FaultCode::AlreadyConnected);
    assert!(core.attach("__admin__", "out", &b, false, 0).is_ok());
    assert_eq!(core.read_streams("out"), vec![b.clone()]);
    assert!(core.can_read("out", &b).is_ok());
    assert!(core.prepare("__admin__", "a", false, 0).is_ok());
    assert_eq!(core.prepare("b", "a", false, 0).unwrap_err().code, FaultCode::PermissionDenied);
    assert_eq!(core.prepare("__admin__", "a", true, 0).unwrap_err().code, FaultCode::AlreadyConnected);
    assert_eq!(core.prepare("__admin__", "unknown", false, 0).unwrap_err().code, FaultCode::PermissionDenied);
}

#[test]
fn operations_and_controls_are_decided_by_name_and_owner() {
    assert_eq!(log_print::registry::operation("stream.resolve"), Operation::StreamResolve);
    assert_eq!(log_print::registry::operation("dance"), Operation::Unsupported);
    assert_eq!(log_print::registry::unsupported("dance").message, "dance");
    assert!(log_print::registry::report_fits(16384).is_ok());
    assert_eq!(log_print::registry::report_fits(16385).unwrap_err().code, FaultCode::Limit);
    assert_eq!(log_print::registry::control_admission("__admin__", "a", true, 128).unwrap_err().code, FaultCode::Busy);
    assert_eq!(log_print::registry::control_admission("__admin__", "a", false, 0).unwrap_err().code, FaultCode::NotConnected);
    assert!(log_print::registry::control_admission("__admin__", "a", true, 127).is_ok());
    assert!(log_print::registry::reply_admission("a", Some("b")).is_err());
    assert!(log_print::registry::reply_admission("a", Some("a")).is_ok());
    assert!(log_print::registry::reply_admission("a", None).is_ok());
    assert_eq!(FaultCode::StreamCycle.code(), "stream_cycle");
}

#[test]
fn streams_are_listed_by_ascending_id() {
    let core = Registry::new(runtime(TransportKind::Tcp)).unwrap();
    let order = core.listing();
    assert_eq!(order.len(), core.stream_count());
    let ids: Vec<String> = order.iter().map(|&k| core.status(k).id).collect();
    let mut sorted = ids.clone();
    sorted.sort();
    assert_eq!(ids, sorted);
    let mut seen = order.clone();
    seen.sort();
    assert_eq!(seen, (0..core.stream_count()).collect::<Vec<_>>());
}

#[test]
fn a_reader_at_the_tail_is_handed_the_next_published_record() {
    let mut r = runtime(TransportKind::Tcp);
    r.config.core.buffer_records = 2;
    let mut core = Registry::new(r).unwrap();
    let a = claim(&mut core, "a", 1);
    for seq in 1..=3 {
        publish(&mut core, "a", 1, &a, seq, b"old").unwrap();
    }
    let k = core.find_stream(&a).unwrap();
    let tail = head(&core, &a) + 1;
    assert!(core.deliver(k, tail).is_empty());
    let published = publish(&mut core, "a", 1, &a, 4, b"new").unwrap();
    let delivered = core.deliver(k, tail);
    assert_eq!(delivered, vec![published]);
}

#[test]
fn start_creates_one_stream_per_configured_plugin_under_its_alias() {
    let core = Registry::new(runtime(TransportKind::Tcp)).unwrap();
    assert_eq!(core.stream_count(), 2);
    let a = core.own("a").unwrap();
    let b = core.own("b").unwrap();
    assert_ne!(a, b);
    assert_eq!(core.resolve_alias("alpha"), core.status(a).id);
    assert_eq!(core.resolve_alias("beta"), core.status(b).id);
    assert!(is_uuid(&core.status(a).id) && is_uuid(&core.status(b).id));
    assert_eq!(core.status(a).head, 0);
    assert!(core.own("out").is_none());
}
