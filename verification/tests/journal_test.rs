use lw_core::journal::{
    find_stale_captures, format_capture_line, format_date_iso, format_time_hm,
    journal_path_for_date, journal_text_after, plan_capture, ClockTime, JournalDate,
    DEFAULT_STALE_AFTER_DAYS, JOURNAL_DIR,
};
use lw_core::WikiError;

fn date(year: i32, month: u8, day: u8) -> JournalDate {
    JournalDate { year, month, day }
}

fn time(hour: u8, minute: u8) -> ClockTime {
    ClockTime { hour, minute }
}

#[test]
fn format_date_iso_pads_month_and_day() {
    assert_eq!(format_date_iso(date(2026, 1, 2)), "2026-01-02");
    assert_eq!(format_date_iso(date(2026, 12, 31)), "2026-12-31");
}

#[test]
fn format_time_hm_pads_to_two_digits() {
    assert_eq!(format_time_hm(time(9, 5)), "09:05");
    assert_eq!(format_time_hm(time(23, 59)), "23:59");
    assert_eq!(format_time_hm(time(0, 0)), "00:00");
}

#[test]
fn journal_path_for_date_lives_under_wiki_journal_dir() {
    let p = journal_path_for_date("/tmp/v", date(2026, 4, 25));
    assert_eq!(p, "/tmp/v/wiki/_journal/2026-04-25.md");
    assert!(p.contains(JOURNAL_DIR));
}

#[test]
fn format_capture_line_strips_leading_hash_on_tags() {
    let line = format_capture_line(time(10, 0), "x", &["#rust".to_string(), "markdown".to_string()], None);
    assert!(line.ends_with("`#rust` `#markdown`"), "expected normalized tag suffix, got: {line}");
}

#[test]
fn capture_renders_tags_and_source_together() {
    let line = format_capture_line(time(11, 0), "combined", &["rust".to_string()], Some("https://example.com"));
    assert_eq!(line, "- **11:00** combined `#rust` ([source](https://example.com))");
}

#[test]
fn empty_content_returns_error() {
    let err = plan_capture(date(2026, 4, 25), time(10, 0), "   ", &[], None).unwrap_err();
    assert!(matches!(err, WikiError::Internal(_)));
}

#[test]
fn plan_capture_gives_line_and_display_path() {
    let (line, display) =
        plan_capture(date(2026, 4, 25), time(10, 23), "comrak can round-trip", &[], None).unwrap();
    assert_eq!(line, "- **10:23** comrak can round-trip");
    assert_eq!(display, "wiki/_journal/2026-04-25.md");
}

#[test]
fn new_journal_page_has_frontmatter_and_heading() {
    let text = journal_text_after(None, date(2026, 4, 25), "- **09:00** first capture");
    assert!(text.starts_with("---\n"));
    assert!(text.contains("title: \"2026-04-25\""));
    assert!(text.contains("tags: [journal]"));
    assert!(text.contains("created: 2026-04-25"));
    assert!(text.contains("## Captures"));
    assert!(text.ends_with("- **09:00** first capture\n"));
}

#[test]
fn second_capture_appends() {
    let first = journal_text_after(None, date(2026, 4, 25), "- **10:23** first thought");
    let second = journal_text_after(Some(&first), date(2026, 4, 25), "- **10:25** second thought");
    assert!(second.starts_with(&first));
    assert!(second.ends_with("- **10:25** second thought\n"));
    assert_eq!(journal_text_after(Some("no newline"), date(2026, 4, 25), "x"), "no newline\nx\n");
}

#[test]
fn find_stale_captures_filters_by_threshold() {
    let files = vec![
        ("2026-01-01.md".to_string(), Some(30)),
        ("2026-03-01.md".to_string(), Some(7)),
        ("2026-03-02.md".to_string(), None),
    ];
    let stale = find_stale_captures(&files, DEFAULT_STALE_AFTER_DAYS);
    assert_eq!(stale.len(), 1);
    assert_eq!(stale[0].path, "_journal/2026-01-01.md");
    assert_eq!(stale[0].age_days, 30);
    assert!(find_stale_captures(&vec![], 7).is_empty());
}

#[test]
fn find_stale_captures_returns_empty_when_journal_dir_missing() {
    assert!(find_stale_captures(&vec![], DEFAULT_STALE_AFTER_DAYS).is_empty());
}

#[test]
fn find_stale_captures_flags_old_journal_pages_via_git_age() {
    let files = vec![("2026-04-25.md".to_string(), Some(30))];
    let stale = find_stale_captures(&files, 7);
    assert!(!stale.is_empty(), "30-day-old capture must be flagged when threshold=7");
    assert!(stale[0].path.contains("_journal"), "{:?}", stale[0].path);
    assert!(stale[0].age_days >= 7, "got {}", stale[0].age_days);
}

#[test]
fn find_stale_captures_skips_recent_pages() {
    let files = vec![("2026-04-25.md".to_string(), Some(0))];
    let stale = find_stale_captures(&files, 7);
    assert!(stale.is_empty(), "fresh capture must not be flagged stale; got: {stale:?}");
}

/// What a capture does to the journal page of `d`: the line the library
/// plans and the page text after it, from the page text before.
fn capture(
    existing: Option<&str>,
    d: JournalDate,
    t: ClockTime,
    content: &str,
    tags: &[String],
    source: Option<&str>,
) -> (String, String, bool) {
    let (line, display) = plan_capture(d, t, content, tags, source).expect("capture must succeed");
    (journal_text_after(existing, d, &line), display, existing.is_none())
}

#[test]
fn append_capture_creates_today_journal_with_timestamp_line() {
    let d = date(2026, 4, 25);
    let (content, display, created) =
        capture(None, d, time(10, 23), "comrak can round-trip markdown via arena AST", &[], None);
    assert!(created, "first capture must auto-create the page");
    assert_eq!(display, "wiki/_journal/2026-04-25.md");
    assert_eq!(journal_path_for_date("/w", d), "/w/wiki/_journal/2026-04-25.md");
    assert!(content.contains("- **10:23** comrak can round-trip markdown via arena AST"), "{content}");
    assert!(content.contains("**10:23**"), "{content}");
}

#[test]
fn auto_created_journal_has_required_frontmatter_fields() {
    let (content, _, _) = capture(None, date(2026, 4, 25), time(9, 0), "first capture", &[], None);
    assert!(content.starts_with("---\n"), "{content}");
    assert!(content.contains(r#"title: "2026-04-25""#) || content.contains("title: 2026-04-25"), "{content}");
    assert!(content.contains("tags: [journal]") || content.contains("- journal"), "{content}");
    assert!(content.contains("created: 2026-04-25"), "{content}");
    assert!(content.contains("## Captures"), "{content}");
}

#[test]
fn second_capture_same_day_appends_does_not_overwrite() {
    let d = date(2026, 4, 25);
    let (first, _, created1) = capture(None, d, time(10, 23), "first thought", &[], None);
    assert!(created1);
    let (content, _, created2) = capture(Some(&first), d, time(10, 25), "second thought", &[], None);
    assert!(!created2, "second capture must NOT mark file as newly created");
    assert!(content.contains("**10:23** first thought"));
    assert!(content.contains("**10:25** second thought"));
    assert!(content.find("first thought").unwrap() < content.find("second thought").unwrap());
}

#[test]
fn capture_renders_tags_after_content() {
    let tags = vec!["rust".to_string(), "markdown".to_string()];
    let (content, _, _) = capture(None, date(2026, 4, 25), time(10, 25), "see docs.rs/comrak", &tags, None);
    assert!(content.contains("**10:25** see docs.rs/comrak `#rust` `#markdown`"), "{content}");
}

#[test]
fn capture_renders_source_link_at_end() {
    let (content, _, _) = capture(
        None,
        date(2026, 4, 25),
        time(10, 30),
        "key insight",
        &[],
        Some("https://example.com/article"),
    );
    assert!(content.contains("**10:30** key insight ([source](https://example.com/article))"), "{content}");
}

#[test]
fn captures_on_different_days_route_to_separate_files() {
    let (yesterday, p1, _) = capture(None, date(2026, 4, 24), time(23, 0), "yesterday", &[], None);
    let (today, p2, _) = capture(None, date(2026, 4, 25), time(0, 1), "today", &[], None);
    assert_eq!(p1, "wiki/_journal/2026-04-24.md");
    assert_eq!(p2, "wiki/_journal/2026-04-25.md");
    assert!(yesterday.contains("yesterday") && !yesterday.contains("today"));
    assert!(today.contains("today") && !today.contains("yesterday"));
}

#[test]
fn capture_with_special_chars_round_trips() {
    let weird = r#"line with 中文, emoji 🚀, and "quotes" + (parens)"#;
    let (content, _, _) = capture(None, date(2026, 4, 25), time(12, 0), weird, &[], None);
    assert!(content.contains(weird), "{content}");
}

#[test]
fn capture_with_long_content_persists_full_text() {
    let long: String = "abcde ".repeat(500);
    let (content, _, _) = capture(None, date(2026, 4, 25), time(13, 0), &long, &[], None);
    assert!(content.contains(long.trim()));
}
