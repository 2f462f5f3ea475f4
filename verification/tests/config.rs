use webmon::config::{
    default_interval_secs, default_log_file, default_ntfy_server, default_state_file,
    default_storage_dir, default_timeout_secs, default_user_agent, Config, ConfigError,
    GeneralConfig, TargetConfig,
};

fn base_general() -> GeneralConfig {
    GeneralConfig {
        storage_dir: default_storage_dir(),
        log_file: default_log_file(),
        state_file: default_state_file(),
        ntfy_server: default_ntfy_server(),
        default_interval_secs: default_interval_secs(),
        user_agent: default_user_agent(),
        timeout_secs: default_timeout_secs(),
    }
}

fn named_target(name: &str) -> TargetConfig {
    TargetConfig {
        name: name.to_string(),
        url: "https://example.com".to_string(),
        interval_secs: None,
        ntfy_topic: None,
        ntfy_server: None,
        include_regex: None,
        exclude_regex: None,
        ntfy_priority: None,
        ntfy_title: None,
    }
}

#[test]
fn defaults() {
    let g = base_general();
    assert_eq!(g.storage_dir, "./storage");
    assert_eq!(g.log_file, "webmon.log");
    assert_eq!(g.state_file, "webmon.state");
    assert_eq!(g.ntfy_server, "https://ntfy.sh");
    assert_eq!(g.default_interval_secs, 3600);
    assert_eq!(g.user_agent, "webmon/0.1 (+https://github.com/)");
    assert_eq!(g.timeout_secs, 30);
}

#[test]
fn interval_override() {
    let mut t = named_target("a");
    let cfg = Config { general: base_general(), targets: vec![t.clone()] };
    assert_eq!(cfg.interval_for(&t), 3600);
    t.interval_secs = Some(60);
    assert_eq!(cfg.interval_for(&t), 60);
}

#[test]
fn relative_paths_follow_the_config_file() {
    let mut cfg = Config { general: base_general(), targets: vec![named_target("a")] };
    cfg.resolve_paths("/etc/webmon/config.toml");
    assert_eq!(cfg.general.storage_dir, "/etc/webmon/./storage");
    assert_eq!(cfg.general.log_file, "/etc/webmon/./storage/webmon.log");
    assert_eq!(cfg.general.state_file, "/etc/webmon/./storage/webmon.state");

    let mut cfg = Config { general: base_general(), targets: vec![] };
    cfg.general.storage_dir = "/var/lib/webmon".to_string();
    cfg.general.log_file = "/var/log/webmon.log".to_string();
    cfg.resolve_paths("config.toml");
    assert_eq!(cfg.general.storage_dir, "/var/lib/webmon");
    assert_eq!(cfg.general.log_file, "/var/log/webmon.log");
    assert_eq!(cfg.general.state_file, "/var/lib/webmon/webmon.state");

    let mut cfg = Config { general: base_general(), targets: vec![] };
    cfg.general.storage_dir = "store".to_string();
    cfg.resolve_paths("config.toml");
    assert_eq!(cfg.general.storage_dir, "./store");
}

#[test]
fn no_targets_is_an_error() {
    let cfg = Config { general: base_general(), targets: vec![] };
    assert!(matches!(cfg.validate(), Err(ConfigError::NoTargets)));
}

#[test]
fn blank_name_is_an_error() {
    let cfg = Config { general: base_general(), targets: vec![named_target("ok"), named_target(" \t")] };
    assert!(matches!(cfg.validate(), Err(ConfigError::BlankName { index: 1 })));
}

#[test]
fn duplicate_name_is_an_error() {
    let cfg = Config {
        general: base_general(),
        targets: vec![named_target("a"), named_target("b"), named_target("a")],
    };
    match cfg.validate() {
        Err(ConfigError::DuplicateName { index, name }) => {
            assert_eq!(index, 2);
            assert_eq!(name, "a");
        }
        other => panic!("unexpected {:?}", other),
    }
}

#[test]
fn bad_regexes_are_errors() {
    let mut t = named_target("x");
    t.include_regex = Some("(".to_string());
    let cfg = Config { general: base_general(), targets: vec![t] };
    match cfg.validate() {
        Err(ConfigError::InvalidIncludeRegex { index, name, error }) => {
            assert_eq!(index, 0);
            assert_eq!(name, "x");
            assert_eq!(error.pattern, "(");
        }
        other => panic!("unexpected {:?}", other),
    }
    let mut t = named_target("y");
    t.include_regex = Some("fine".to_string());
    t.exclude_regex = Some("[z".to_string());
    let cfg = Config { general: base_general(), targets: vec![named_target("w"), t] };
    match cfg.validate() {
        Err(ConfigError::InvalidExcludeRegex { index, name, error }) => {
            assert_eq!(index, 1);
            assert_eq!(name, "y");
            assert_eq!(error.pattern, "[z");
        }
        other => panic!("unexpected {:?}", other),
    }
}

#[test]
fn valid_config_passes() {
    let mut t = named_target("b");
    t.include_regex = Some(r"\d+".to_string());
    t.exclude_regex = Some(r"(?m)^x$".to_string());
    let cfg = Config { general: base_general(), targets: vec![named_target("a"), t] };
    assert!(cfg.validate().is_ok());
}

#[test]
fn names_differing_only_in_unsafe_chars_are_accepted() {
    let cfg = Config {
        general: base_general(),
        targets: vec![named_target("a b"), named_target("c"), named_target("a_b")],
    };
    assert!(cfg.validate().is_ok());
    let cfg = Config {
        general: base_general(),
        targets: vec![named_target("a b"), named_target("a b")],
    };
    assert!(matches!(cfg.validate(), Err(ConfigError::DuplicateName { index: 1, .. })));
}
