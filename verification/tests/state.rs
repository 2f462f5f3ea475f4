use webmon::state::State;

#[test]
fn never_seen_is_due() {
    let s = State::new();
    assert_eq!(s.last_run("x"), None);
    assert!(s.is_due("x", 3600, 0));
}

#[test]
fn mark_run_then_last_run() {
    let mut s = State::new();
    s.mark_run("b", 20);
    s.mark_run("a", 10);
    s.mark_run("b", 30);
    assert_eq!(s.last_run("a"), Some(10));
    assert_eq!(s.last_run("b"), Some(30));
    assert_eq!(s.last_run("c"), None);
}

#[test]
fn due_after_interval() {
    let mut s = State::new();
    s.mark_run("t", 1000);
    assert!(!s.is_due("t", 60, 1059));
    assert!(s.is_due("t", 60, 1060));
    assert!(s.is_due("t", 0, 1000));
    // elapsed time is counted exactly, without overflow
    s.mark_run("old", i64::MIN);
    assert!(s.is_due("old", 3600, i64::MAX));
    assert!(s.is_due("old", u64::MAX, i64::MAX));
    s.mark_run("future", i64::MAX);
    assert!(!s.is_due("future", 0, i64::MIN));
    // an interval above i64::MAX is just a long interval
    let mut z = State::default();
    z.mark_run("a", 0);
    assert!(!z.is_due("a", u64::MAX, 0));
    assert!(!s.is_due("t", u64::MAX, i64::MAX));
}

#[test]
fn text_is_sorted_by_name() {
    let mut s = State::new();
    s.mark_run("zeta", 5);
    s.mark_run("alpha", -7);
    let text = s.to_text();
    assert_eq!(
        text,
        "# webmon state file \u{2014} plain text, safe to hand-edit.\n\
         # format: <target-name>\\t<unix-timestamp-of-last-check>\n\
         alpha\t-7\n\
         zeta\t5\n"
    );
}

#[test]
fn text_round_trip() {
    let mut s = State::new();
    s.mark_run("one page", 1_700_000_000);
    s.mark_run("two", i64::MIN);
    s.mark_run("three", i64::MAX);
    let (back, bad) = State::from_text(&s.to_text());
    assert!(bad.is_empty());
    assert_eq!(back.last_run("one page"), Some(1_700_000_000));
    assert_eq!(back.last_run("two"), Some(i64::MIN));
    assert_eq!(back.last_run("three"), Some(i64::MAX));
    assert_eq!(back.to_text(), s.to_text());
}

#[test]
fn reading_skips_comments_blanks_and_bad_lines() {
    let raw = "# comment\n\n  a\t 12 \r\nno-tab-here\nb\tnot-a-number\n   # indented comment\nc\t+5\nd\t-0\na\t13\n";
    let (s, bad) = State::from_text(raw);
    assert_eq!(s.last_run("a"), Some(13));
    assert_eq!(s.last_run("c"), Some(5));
    assert_eq!(s.last_run("d"), Some(0));
    assert_eq!(s.last_run("b"), None);
    assert_eq!(s.last_run("no-tab-here"), None);
    assert_eq!(bad.len(), 2);
    assert_eq!(bad[0].number, 4);
    assert_eq!(bad[0].text, "no-tab-here");
    assert_eq!(bad[1].number, 5);
    assert_eq!(bad[1].text, "b\tnot-a-number");
}

#[test]
fn reading_rejects_out_of_range_numbers() {
    let raw = "a\t9223372036854775807\nb\t9223372036854775808\nc\t-9223372036854775808\nd\t-9223372036854775809\ne\t-\nf\t+\ng\t00012";
    let (s, bad) = State::from_text(raw);
    assert_eq!(s.last_run("a"), Some(i64::MAX));
    assert_eq!(s.last_run("b"), None);
    assert_eq!(s.last_run("c"), Some(i64::MIN));
    assert_eq!(s.last_run("d"), None);
    assert_eq!(s.last_run("g"), Some(12));
    let numbers: Vec<usize> = bad.iter().map(|m| m.number).collect();
    assert_eq!(numbers, vec![2, 4, 5, 6]);
}

#[test]
fn name_keeps_inner_spaces_before_tab() {
    let (s, _) = State::from_text("my target \t 42");
    assert_eq!(s.last_run("my target "), Some(42));
    assert_eq!(s.last_run("my target"), None);
}

#[test]
fn empty_text_is_empty_state() {
    let (s, bad) = State::from_text("");
    assert!(bad.is_empty());
    assert_eq!(s.last_run(""), None);
    let d = State::default();
    assert_eq!(d.to_text(), State::new().to_text());
}
