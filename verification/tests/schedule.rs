use webmon::config::{Config, GeneralConfig, TargetConfig};
use webmon::schedule::{due_targets, record_pass, PassSummary};
use webmon::state::State;

fn three_targets() -> Config {
    let mk = |name: &str, interval: Option<u64>| TargetConfig {
        name: name.to_string(),
        url: "https://example.com".to_string(),
        interval_secs: interval,
        ntfy_topic: None,
        ntfy_server: None,
        include_regex: None,
        exclude_regex: None,
        ntfy_priority: None,
        ntfy_title: None,
    };
    Config {
        general: GeneralConfig {
            storage_dir: "s".to_string(),
            log_file: "l".to_string(),
            state_file: "t".to_string(),
            ntfy_server: "https://ntfy.sh".to_string(),
            default_interval_secs: 100,
            user_agent: "ua".to_string(),
            timeout_secs: 30,
        },
        targets: vec![mk("a", None), mk("b", Some(10)), mk("c", None)],
    }
}

#[test]
fn due_respects_intervals_unless_forced() {
    let cfg = three_targets();
    let mut s = State::new();
    s.mark_run("a", 1000);
    s.mark_run("b", 1000);
    // a: 50s < 100s not due; b: 50s >= 10s due; c: never checked, due
    assert_eq!(due_targets(&cfg, &s, 1050, false), vec![1, 2]);
    assert_eq!(due_targets(&cfg, &s, 1050, true), vec![0, 1, 2]);
    assert_eq!(due_targets(&cfg, &s, 1100, false), vec![0, 1, 2]);
}

#[test]
fn pass_marks_every_checked_target() {
    let cfg = three_targets();
    let mut s = State::new();
    s.mark_run("a", 5);
    let summary = record_pass(&mut s, &cfg, &vec![(1, true), (2, false)], 777);
    assert_eq!(summary, PassSummary { checked: 2, changed: 1 });
    assert_eq!(s.last_run("a"), Some(5));
    assert_eq!(s.last_run("b"), Some(777));
    assert_eq!(s.last_run("c"), Some(777));
    // "a" was not checked in this pass and is long overdue
    assert_eq!(due_targets(&cfg, &s, 777, false), vec![0]);
    assert_eq!(due_targets(&cfg, &s, 786, false), vec![0]);
    assert_eq!(due_targets(&cfg, &s, 787, false), vec![0, 1]);
}
