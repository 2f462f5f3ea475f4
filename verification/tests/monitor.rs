use webmon::config::TargetConfig;
use webmon::diff::make_diff;
use webmon::monitor::{
    detect_change, extract_monitored, pages_dir, run_outcome, sanitize_name, snapshot_path,
    target_patterns, RunOutcome,
};
use webmon::patterns::Pattern;

fn monitored_target(name: &str) -> TargetConfig {
    TargetConfig {
        name: name.to_string(),
        url: "https://example.com".to_string(),
        interval_secs: None,
        ntfy_topic: None,
        ntfy_server: None,
        include_regex: None,
        exclude_regex: None,
        ntfy_priority: None,
        ntfy_title: None,
    }
}

#[test]
fn whole_page_by_default() {
    let out = extract_monitored("hello world", None, None);
    assert_eq!(out, "hello world");
}

#[test]
fn include_regex_selects_parts() {
    let re = Pattern::new(r"Price: \$\d+").unwrap();
    let content = "Widget\nPrice: $10\nIn stock\nPrice: $20 (bulk)";
    // note: the second "Price: $20" match stops at the digits, "(bulk)" isn't included
    let out = extract_monitored(content, Some(&re), None);
    assert_eq!(out, "Price: $10\nPrice: $20");
}

#[test]
fn exclude_regex_strips_parts() {
    let re = Pattern::new(r"(?m)^Last updated:.*$").unwrap();
    let content = "Title\nLast updated: 2026-01-01\nBody text";
    let out = extract_monitored(content, None, Some(&re));
    assert_eq!(out, "Title\n\nBody text");
}

#[test]
fn diff_shows_added_and_removed_lines() {
    let diff = make_diff("a\nb\nc\n", "a\nx\nc\n");
    assert!(diff.contains("-b"));
    assert!(diff.contains("+x"));
}

#[test]
fn sanitize_replaces_unsafe_chars() {
    assert_eq!(sanitize_name("My Page: v2/beta"), "My_Page__v2_beta");
}

#[test]
fn sanitize_keeps_safe_chars_and_is_idempotent() {
    assert_eq!(sanitize_name("ok-name_1.txt"), "ok-name_1.txt");
    assert_eq!(sanitize_name("é ü"), "___");
    let once = sanitize_name("a b/c");
    assert_eq!(sanitize_name(&once), once);
}

#[test]
fn include_then_exclude() {
    let inc = Pattern::new(r"item: \w+ \d+").unwrap();
    let exc = Pattern::new(r" \d+").unwrap();
    let content = "head\nitem: apple 3\nnoise\nitem: pear 7\n";
    let out = extract_monitored(content, Some(&inc), Some(&exc));
    assert_eq!(out, "item: apple\nitem: pear");
}

#[test]
fn include_without_match_is_empty() {
    let inc = Pattern::new(r"zzz").unwrap();
    assert_eq!(extract_monitored("abc", Some(&inc), None), "");
}

#[test]
fn exact_diff_text() {
    let diff = make_diff("a\nb\nc\n", "a\nx\nc\n");
    assert_eq!(diff, " a\n-b\n+x\n c\n");
    // a line without a final newline gets one in the diff
    assert_eq!(make_diff("a", "b"), "-a\n+b\n");
}

#[test]
fn first_fetch_is_a_baseline() {
    assert_eq!(detect_change(None, "anything", None, None), None);
}

#[test]
fn unchanged_monitored_text_is_no_change() {
    let exc = Pattern::new(r"\d\d:\d\d").unwrap();
    let old = "Status: up (12:00)";
    let new = "Status: up (12:05)";
    assert_eq!(detect_change(Some(old), new, None, Some(&exc)), None);
}

#[test]
fn changed_monitored_text_gives_the_diff() {
    let d = detect_change(Some("a\nb\n"), "a\nc\n", None, None);
    assert_eq!(d, Some(" a\n-b\n+c\n".to_string()));
}

#[test]
fn snapshot_lives_under_pages() {
    assert_eq!(pages_dir("/data/store"), "/data/store/pages");
    assert_eq!(
        snapshot_path("/data/store", "My Page: v2/beta"),
        "/data/store/pages/My_Page__v2_beta.snapshot"
    );
}

#[test]
fn pattern_compile_errors() {
    let err = Pattern::new("(unclosed").unwrap_err();
    assert_eq!(err.pattern, "(unclosed");
    assert!(!err.reason.is_empty());
    let ok = Pattern::new("a+").unwrap();
    assert_eq!(ok.as_str(), "a+");
}

#[test]
fn target_patterns_compiles_both() {
    let mut t = monitored_target("t");
    t.include_regex = Some("a+".to_string());
    let (inc, exc) = target_patterns(&t).unwrap();
    assert_eq!(inc.unwrap().as_str(), "a+");
    assert!(exc.is_none());
    t.exclude_regex = Some("[".to_string());
    let err = target_patterns(&t).unwrap_err();
    assert_eq!(err.pattern, "[");
    t.include_regex = Some("(".to_string());
    let err = target_patterns(&t).unwrap_err();
    assert_eq!(err.pattern, "(");
}

#[test]
fn outcome_counts_notification_only_for_a_change_with_a_topic() {
    let mut t = monitored_target("t");
    let diff = Some("-a\n+b\n".to_string());
    assert_eq!(run_outcome(&t, &diff, true), RunOutcome { changed: true, notified: false });
    t.ntfy_topic = Some("topic".to_string());
    assert_eq!(run_outcome(&t, &diff, true), RunOutcome { changed: true, notified: true });
    assert_eq!(run_outcome(&t, &diff, false), RunOutcome { changed: true, notified: false });
    assert_eq!(run_outcome(&t, &None, true), RunOutcome { changed: false, notified: false });
}
