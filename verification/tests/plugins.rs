use log_print::limits::{bounded, MAX_PAYLOAD};
use log_print::plugins::{
    control_answer, display, shell_quote, ControlAnswer, FileInputConfig, FileMode, PluginConfigError, ProgramConfig,
    ProgramMode, RawConfig, SerialConfig, TailConfig,
};
use log_print::record::Record;

fn program(mode: ProgramMode) -> ProgramConfig {
    ProgramConfig { mode, ..ProgramConfig::default() }
}

#[test]
fn quotes_shell_metacharacters_as_data() {
    assert_eq!(shell_quote("a'b $x;`id`"), "'a'\\''b $x;`id`'");
}

#[test]
fn mode_validation_prevents_unintended_target_changes() {
    assert!(ProgramConfig { command: "echo".into(), ..program(ProgramMode::Spawn) }.check().is_ok());
    assert!(ProgramConfig { tmux_target: Some("%1".into()), ..program(ProgramMode::Tmux) }.check().is_ok());
    let bad = [
        program(ProgramMode::Spawn),
        program(ProgramMode::Tmux),
        ProgramConfig { tmux_target: Some("%1".into()), command: "echo".into(), ..program(ProgramMode::Tmux) },
        ProgramConfig { command: "echo".into(), tmux_target: Some("%1".into()), ..program(ProgramMode::Spawn) },
        ProgramConfig { command: "echo".into(), shutdown_ms: 0, ..program(ProgramMode::Spawn) },
    ];
    for c in bad {
        assert!(c.check().is_err());
    }
    assert_eq!(program(ProgramMode::Spawn).check(), Err(PluginConfigError::MissingCommand));
    assert_eq!(program(ProgramMode::Tmux).check(), Err(PluginConfigError::MissingTmuxTarget));
    let chunk = ProgramConfig { command: "echo".into(), chunk_bytes: 0, ..program(ProgramMode::Spawn) }.check();
    assert_eq!(chunk, Err(PluginConfigError::Range(bounded("chunk_bytes", 0, 1, MAX_PAYLOAD).unwrap_err())));
}

#[test]
fn modes_and_bounds() {
    let file = |path: &str| FileInputConfig { path: path.into(), ..FileInputConfig::default() };
    assert_eq!(file("x").mode, FileMode::Follow);
    assert!(file("x").check().is_ok());
    assert!(FileInputConfig { mode: FileMode::Static, ..file("x") }.check().is_ok());
    for bad in [
        file(""),
        FileInputConfig { chunk_bytes: 0, ..file("x") },
        FileInputConfig { poll_ms: 0, ..file("x") },
    ] {
        assert!(bad.check().is_err());
    }
    assert_eq!(file("").check(), Err(PluginConfigError::MissingPath));
    assert_eq!(FileInputConfig { poll_ms: 60001, ..file("x") }.check(), Err(PluginConfigError::PollMs));
}

#[test]
fn rejects_file_output_and_invalid_streams() {
    for streams in [vec![String::new()], vec!["s".to_string(), "s".to_string()]] {
        assert_eq!(RawConfig { streams, annotate: false }.check(), Err(PluginConfigError::Streams));
    }
    assert!(RawConfig { streams: vec!["s".into(), "t".into()], annotate: true }.check().is_ok());
}

#[test]
fn default_display_preserves_binary_and_empty_records() {
    let mut r = Record {
        stream: "s".into(),
        epoch: "e".into(),
        seq: 2,
        key: "k".into(),
        payload: vec![0, 255, 10],
        source_ts_ns: None,
        observed_ts_ns: 1,
        upstream: vec![],
        upstream_epochs: vec![],
        source_seq: None,
        channel: None,
    };
    assert_eq!(display(&r, false), vec![0, 255, 10]);
    assert!(display(&r, true).ends_with(&r.payload));
    assert_eq!(display(&r, true), [b"\n[s #2 channel=default]\n".as_slice(), &[0, 255, 10]].concat());
    r.payload.clear();
    assert_eq!(display(&r, false), Vec::<u8>::new());
    r.channel = Some("stdout".into());
    assert_eq!(display(&r, true), b"\n[s #2 channel=stdout]\n".to_vec());
}

#[test]
fn configuration_is_static_and_shutdown_is_not_completion() {
    assert_eq!(control_answer("config.get"), ControlAnswer::Snapshot);
    assert_eq!(control_answer("config.patch"), ControlAnswer::RestartRequired);
    assert_eq!(control_answer("shutdown"), ControlAnswer::Stopping);
    assert_eq!(control_answer("reboot"), ControlAnswer::Unsupported);
    assert_eq!(control_answer("config.get").refusal("config.get"), None);
    assert_eq!(control_answer("config.get").flags(), vec![("restart_required", true)]);
    assert_eq!(control_answer("config.patch").refusal("config.patch").unwrap().0, "restart_required");
    assert_eq!(control_answer("shutdown").flags(), vec![("stopping", true), ("completed", false)]);
    assert_eq!(
        control_answer("reboot").refusal("reboot"),
        Some(("invalid_control".to_string(), "unsupported control reboot".to_string()))
    );
}

#[test]
fn bounded_names_the_setting_and_its_range() {
    assert!(bounded("queue", 5, 1, 5).is_ok());
    let e = bounded("queue", 6, 1, 5).unwrap_err();
    assert_eq!(e.message(), "queue must be 1..=5");
    assert_eq!(bounded("x", 0, 1, 10).unwrap_err().message(), "x must be 1..=10");
}

#[test]
fn serial_settings_are_bounded_and_framing_is_checked() {
    let mut c = SerialConfig::default();
    assert_eq!(c.check(), Err(PluginConfigError::MissingPortOrStream));
    c.port = "/dev/ttyUSB0".to_string();
    assert_eq!(c.check(), Ok(()));
    c.baud = 49;
    match c.check() {
        Err(PluginConfigError::Range(e)) => assert_eq!((e.name.as_str(), e.min, e.max), ("baud", 50, 4000000)),
        other => panic!("{other:?}"),
    }
    c.baud = 9600;
    c.parity = "mark".to_string();
    assert_eq!(c.check(), Err(PluginConfigError::SerialFraming));
    c.parity = "even".to_string();
    c.data_bits = 9;
    assert_eq!(c.check(), Err(PluginConfigError::SerialFraming));
    c.data_bits = 7;
    c.stop_bits = 2;
    assert_eq!(c.check(), Ok(()));
}

#[test]
fn tail_settings_need_a_path_and_bounded_polling() {
    let mut c = TailConfig::default();
    assert_eq!(c.check(), Err(PluginConfigError::MissingPathOrStream));
    c.path = "app.log".to_string();
    assert_eq!(c.check(), Ok(()));
    c.poll_ms = 0;
    match c.check() {
        Err(PluginConfigError::Range(e)) => assert_eq!((e.name.as_str(), e.min, e.max), ("poll_ms", 1, 60000)),
        other => panic!("{other:?}"),
    }
    c.poll_ms = 10;
    c.chunk_bytes = 65537;
    assert!(matches!(c.check(), Err(PluginConfigError::Range(_))));
}
