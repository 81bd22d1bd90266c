use log_print::supervisor::{check_plugin_identities, config_size_ok, StartupRefusal};
use log_print::supervisor::{readiness, PluginPresence, ProcessState, ReadinessError};

fn presence(id: &str, connected: bool, state: Option<&str>) -> PluginPresence {
    PluginPresence { id: id.to_string(), connected, report_state: state.map(str::to_string) }
}

fn process(id: &str, running: bool, success: Option<bool>) -> ProcessState {
    ProcessState { id: id.to_string(), running, last_success: success, last_exit: None }
}

fn ids(v: &[&str]) -> Vec<String> {
    v.iter().map(|s| s.to_string()).collect()
}

#[test]
fn connected_or_cleanly_finished_plugins_are_ready() {
    let core = vec![presence("a", true, None), presence("b", false, Some("completed")), presence("c", false, None)];
    let ps = vec![process("a", true, None), process("b", false, Some(true)), process("c", true, None)];
    assert_eq!(readiness(&core, &ps, &ids(&["a", "b", "c"])), Ok(vec![2]));
    assert_eq!(readiness(&core, &ps, &ids(&["a", "b"])), Ok(Vec::new()));
}

#[test]
fn failures_are_reported_for_the_first_failing_plugin() {
    let core = vec![presence("a", false, None), presence("b", false, Some("failed"))];
    let ps = vec![process("a", true, None), process("b", true, None), process("c", true, None)];
    assert_eq!(
        readiness(&core, &ps, &ids(&["a", "b"])),
        Err(ReadinessError::InitializationFailed { plugin: 1 })
    );
    assert_eq!(readiness(&core, &ps, &ids(&["c", "b"])), Err(ReadinessError::MissingPlugin { plugin: 0 }));
    let exited = vec![presence("a", false, Some("stopped"))];
    assert_eq!(
        readiness(&exited, &vec![process("a", false, Some(false))], &ids(&["a"])),
        Err(ReadinessError::ExitedEarly { plugin: 0 })
    );
    assert_eq!(readiness(&exited, &vec![process("a", false, Some(true))], &ids(&["a"])), Ok(Vec::new()));
    let silent = vec![presence("a", false, None)];
    assert_eq!(
        readiness(&silent, &vec![process("a", false, Some(true))], &ids(&["a"])),
        Err(ReadinessError::ExitedEarly { plugin: 0 })
    );
}

#[test]
fn reserved_or_duplicate_plugin_identities_and_oversized_configs_are_refused() {
    let ids = |v: &[&str]| v.iter().map(|s| s.to_string()).collect::<Vec<String>>();
    assert_eq!(check_plugin_identities(&ids(&["a", "b", "_c"])), Ok(()));
    let reserved = ids(&["a", "__admin__", "a"]);
    let r = check_plugin_identities(&reserved);
    assert_eq!(r, Err(StartupRefusal::PluginIdentity { plugin: 1 }));
    assert_eq!(r.unwrap_err().message(&reserved), "duplicate or reserved plugin identity: __admin__");
    assert_eq!(check_plugin_identities(&ids(&["a", "b", "a"])), Err(StartupRefusal::PluginIdentity { plugin: 2 }));
    assert_eq!(config_size_ok(1024 * 1024), Ok(()));
    assert_eq!(config_size_ok(1024 * 1024 + 1), Err(StartupRefusal::ConfigTooLarge));
    assert_eq!(StartupRefusal::ConfigTooLarge.message(&reserved), "configuration exceeds 1 MiB");
}
