use log_print::config::{valid_id, validate, Config, ConfigError, PluginSpec, StreamSpec};
use log_print::proto::{CoreOptions, Role};

fn plugin(id: &str, role: Role, alias: Option<&str>, reads: &[&str]) -> PluginSpec {
    PluginSpec {
        id: id.into(),
        role,
        bin: "bin".into(),
        args: vec![],
        autostart: true,
        reads: reads.iter().map(|s| s.to_string()).collect(),
        streams: alias.into_iter().map(|a| StreamSpec { id: a.into(), description: String::new(), parents: vec![] }).collect(),
    }
}

fn config(plugins: Vec<PluginSpec>) -> Config {
    Config { core: CoreOptions::default(), plugins }
}

#[test]
fn identifiers_are_short_ascii_names() {
    assert!(valid_id("input-1.raw_x"));
    assert!(!valid_id(""));
    assert!(!valid_id("."));
    assert!(!valid_id(".."));
    assert!(!valid_id("a b"));
    assert!(!valid_id("中文"));
    assert!(!valid_id(&"x".repeat(101)));
    assert!(valid_id(&"x".repeat(100)));
}

#[test]
fn configuration_rules_are_checked_in_order() {
    let ok = config(vec![plugin("a", Role::Input, Some("alpha"), &[]), plugin("out", Role::Output, None, &["alpha"])]);
    assert_eq!(validate(&ok), Ok(()));
    let mut c = ok.clone();
    c.core.queue_records = 0;
    assert_eq!(validate(&c), Err(ConfigError::CoreLimits));
    let c = config(vec![plugin("a", Role::Input, None, &[]), plugin("a", Role::Input, None, &[])]);
    assert_eq!(validate(&c), Err(ConfigError::InvalidPluginId { plugin: 1 }));
    let c = config(vec![plugin("__admin__", Role::Input, None, &[])]);
    assert_eq!(validate(&c), Err(ConfigError::InvalidPluginId { plugin: 0 }));
    let c = config(vec![plugin("a", Role::Input, None, &["x"])]);
    assert_eq!(validate(&c), Err(ConfigError::InputReads));
    let c = config(vec![plugin("a", Role::Input, Some("s"), &[]), plugin("b", Role::Input, Some("s"), &[])]);
    assert_eq!(validate(&c), Err(ConfigError::InvalidAlias { plugin: 1 }));
    let c = config(vec![plugin("out", Role::Output, None, &["ghost"])]);
    assert_eq!(validate(&c), Err(ConfigError::UnknownAlias { plugin: 0, read: 0 }));
    let c = config(vec![plugin("out", Role::Output, None, &["550e8400-e29b-41d4-a716-446655440000"])]);
    assert_eq!(validate(&c), Ok(()));
    let c = config(vec![plugin("self", Role::Output, Some("mine"), &["mine"])]);
    assert_eq!(validate(&c), Err(ConfigError::SelfSubscription));
    let mut p = plugin("conv", Role::Output, Some("c"), &[]);
    p.streams[0].parents = vec!["alpha".into()];
    let c = config(vec![plugin("a", Role::Input, Some("alpha"), &[]), p]);
    assert_eq!(validate(&c), Err(ConfigError::ParentNotRead));
    let mut p = plugin("a", Role::Input, Some("alpha"), &[]);
    p.streams[0].parents = vec!["x".into()];
    assert_eq!(validate(&config(vec![p])), Err(ConfigError::InputParents));
}

#[test]
fn three_plugin_feedback_loop_is_a_cycle() {
    let c = config(vec![
        plugin("x", Role::Output, Some("xs"), &["zs"]),
        plugin("y", Role::Output, Some("ys"), &["xs"]),
        plugin("z", Role::Output, Some("zs"), &["ys"]),
    ]);
    assert_eq!(validate(&c), Err(ConfigError::StreamCycle));
    let chain = config(vec![
        plugin("x", Role::Input, Some("xs"), &[]),
        plugin("y", Role::Output, Some("ys"), &["xs"]),
        plugin("z", Role::Output, Some("zs"), &["ys", "xs"]),
    ]);
    assert_eq!(validate(&chain), Ok(()));
}
