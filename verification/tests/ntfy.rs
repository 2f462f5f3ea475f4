use webmon::config::{GeneralConfig, TargetConfig};
use webmon::ntfy::{build_body, change_notification, MAX_DIFF_BYTES};

fn ntfy_general() -> GeneralConfig {
    GeneralConfig {
        storage_dir: "s".to_string(),
        log_file: "l".to_string(),
        state_file: "t".to_string(),
        ntfy_server: "https://ntfy.sh".to_string(),
        default_interval_secs: 3600,
        user_agent: "ua".to_string(),
        timeout_secs: 30,
    }
}

fn topic_target() -> TargetConfig {
    TargetConfig {
        name: "shop".to_string(),
        url: "https://shop.example/item".to_string(),
        interval_secs: None,
        ntfy_topic: Some("alerts".to_string()),
        ntfy_server: None,
        include_regex: None,
        exclude_regex: None,
        ntfy_priority: None,
        ntfy_title: None,
    }
}

#[test]
fn no_topic_no_notification() {
    let mut t = topic_target();
    t.ntfy_topic = None;
    assert!(change_notification(&ntfy_general(), &t, "-a\n+b\n").is_none());
}

#[test]
fn notification_fields() {
    let n = change_notification(&ntfy_general(), &topic_target(), "-a\n+b\n").unwrap();
    assert_eq!(n.url, "https://ntfy.sh/alerts");
    assert_eq!(n.title, "shop");
    assert_eq!(n.body, "https://shop.example/item\n\n-a\n+b\n");
    assert_eq!(n.priority, None);
    assert_eq!(n.tags, "warning");
    assert_eq!(n.content_type, "text/plain; charset=utf-8");
    assert_eq!(n.click, "https://shop.example/item");
}

#[test]
fn server_override_title_and_priority() {
    let mut t = topic_target();
    t.ntfy_server = Some("https://push.example.org///".to_string());
    t.ntfy_title = Some("Price moved".to_string());
    t.ntfy_priority = Some("high".to_string());
    let n = change_notification(&ntfy_general(), &t, "x").unwrap();
    assert_eq!(n.url, "https://push.example.org/alerts");
    assert_eq!(n.title, "Price moved");
    assert_eq!(n.priority, Some("high".to_string()));
}

#[test]
fn long_diff_is_truncated_at_a_char_boundary() {
    assert_eq!(MAX_DIFF_BYTES, 3800);
    // 3799 ASCII bytes, then a two-byte character straddling the limit
    let mut diff = "a".repeat(3799);
    diff.push('é');
    diff.push_str("tail");
    let body = build_body("u", &diff);
    let expected = format!(
        "u\n\n{}\n\n... [diff truncated, {} bytes total]",
        "a".repeat(3799),
        diff.len()
    );
    assert_eq!(body, expected);
    assert_eq!(diff.len(), 3805);
}

#[test]
fn diff_at_the_limit_is_kept_whole() {
    let diff = "b".repeat(3800);
    assert_eq!(build_body("u", &diff), format!("u\n\n{}", diff));
    let longer = "b".repeat(3801);
    assert_eq!(
        build_body("u", &longer),
        format!("u\n\n{}\n\n... [diff truncated, 3801 bytes total]", diff)
    );
}
