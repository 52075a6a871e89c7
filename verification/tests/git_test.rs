use lw_core::git::{
    age_in_days, auto_commit, build_commit_message, compute_freshness, dirty_warning,
    first_commit_time, log_timestamp, normalize_against_toplevel, page_freshness, parse_author,
    AutoCommitOpts, AutoCommitOutcome, AutoCommitState, CommitAction, FreshnessLevel, GitEvent,
    GitRequest,
};
use lw_core::WikiError;

#[test]
fn fast_decay_stale_after_30() {
    assert_eq!(compute_freshness("fast", 31, 90), FreshnessLevel::Stale);
    assert_eq!(compute_freshness("fast", 10, 90), FreshnessLevel::Fresh);
    assert_eq!(compute_freshness("fast", 25, 90), FreshnessLevel::Suspect);
}

#[test]
fn normal_decay_uses_default_days() {
    assert_eq!(compute_freshness("normal", 91, 90), FreshnessLevel::Stale);
    assert_eq!(compute_freshness("normal", 30, 90), FreshnessLevel::Fresh);
    assert_eq!(compute_freshness("normal", 70, 90), FreshnessLevel::Suspect);
}

#[test]
fn evergreen_never_stale() {
    assert_eq!(compute_freshness("evergreen", 9999, 90), FreshnessLevel::Fresh);
}

#[test]
fn unknown_decay_defaults_to_normal() {
    assert_eq!(compute_freshness("unknown", 91, 90), FreshnessLevel::Stale);
}

#[test]
fn freshness_suffixes() {
    assert_eq!(FreshnessLevel::Fresh.suffix(), "");
    assert_eq!(FreshnessLevel::Suspect.suffix(), " [suspect]");
    assert_eq!(FreshnessLevel::Stale.suffix(), " [stale]");
}

#[test]
fn page_without_history_is_fresh() {
    assert_eq!(page_freshness(Some("fast"), None, 90), FreshnessLevel::Fresh);
    assert_eq!(page_freshness(None, Some(91), 90), FreshnessLevel::Stale);
}

fn opts<'a>(commit: bool, push: bool, author: Option<&'a str>) -> AutoCommitOpts<'a> {
    AutoCommitOpts { commit, push, author, source: Some("https://x"), generator_version: "0.3.1" }
}

#[test]
fn commit_message_has_subject_and_trailers() {
    let m = build_commit_message(CommitAction::Create, "my-page", &opts(true, false, Some("Ann <a@x>")));
    assert_eq!(
        m,
        "docs(wiki): create my-page\n\ngenerator: lw v0.3.1\nauthor: Ann <a@x>\nsource: https://x\n"
    );
}

#[test]
fn parse_author_splits_name_and_email() {
    assert_eq!(parse_author("Ann Lee <ann@x.org>"), ("Ann Lee".to_string(), "ann@x.org".to_string()));
    assert_eq!(parse_author("  Just A Name "), ("Just A Name".to_string(), "noreply@local".to_string()));
}

#[test]
fn normalize_against_toplevel_strips_prefix() {
    assert_eq!(normalize_against_toplevel("/repo/wiki/a.md", "/repo"), "wiki/a.md");
    assert_eq!(normalize_against_toplevel("wiki/a.md", "/repo"), "wiki/a.md");
    assert_eq!(normalize_against_toplevel("/else/a.md", "/repo"), "/else/a.md");
}

#[test]
fn dirty_warning_lists_other_files_only() {
    let paths = vec!["wiki/tools/a.md".to_string()];
    assert_eq!(dirty_warning("", &paths), None);
    assert_eq!(dirty_warning(" M wiki/tools/a.md\n?? .lw/search/meta.json\n", &paths), None);
    let w = dirty_warning(" M wiki/tools/a.md\n M notes.txt\n?? b.md\n", &paths).unwrap();
    assert_eq!(
        w,
        "warning: working tree has uncommitted changes elsewhere (notes.txt, b.md); only the wiki page was committed"
    );
    let many = dirty_warning(" M a\n M b\n M c\n M d\n M e\n", &paths).unwrap();
    assert!(many.contains("(a, b, c (+2 more))"), "{many}");
}

#[test]
fn log_timestamps_and_ages() {
    assert_eq!(log_timestamp("1700000000\n"), Some(1700000000));
    assert_eq!(log_timestamp("garbage"), None);
    assert_eq!(age_in_days(1_000_000, 1_000_000 + 3 * 86400 + 5), Some(3));
    assert_eq!(age_in_days(0, 5), None);
    assert_eq!(age_in_days(200_000, 100_000), Some(-1));
    assert_eq!(first_commit_time("\n  \n1699999999\n1700000000\n"), Some(1699999999));
    assert_eq!(first_commit_time("0\n"), None);
    assert_eq!(first_commit_time(""), None);
}

/// Run the auto-commit policy against scripted git answers.
fn run(
    paths: &[&str],
    o: AutoCommitOpts<'_>,
    git: bool,
    status: Option<&str>,
    commit: Result<(), String>,
    push: Result<(), String>,
) -> (Result<AutoCommitOutcome, WikiError>, Vec<String>) {
    let paths: Vec<String> = paths.iter().map(|s| s.to_string()).collect();
    let mut state = AutoCommitState::Start;
    let mut event = GitEvent::Begin;
    let mut log = Vec::new();
    loop {
        let (next, req) = auto_commit(state, event, &paths, CommitAction::Update, "p", &o);
        state = next;
        event = match req {
            GitRequest::CheckRepo => {
                log.push("check".to_string());
                GitEvent::RepoChecked(git)
            }
            GitRequest::ReadStatus => {
                log.push("status".to_string());
                GitEvent::StatusRead(status.map(|s| s.to_string()))
            }
            GitRequest::Commit { message, author } => {
                log.push(format!("commit {author:?} {}", message.lines().next().unwrap()));
                GitEvent::CommitDone(commit.clone())
            }
            GitRequest::Push => {
                log.push("push".to_string());
                GitEvent::PushDone(push.clone())
            }
            GitRequest::Finish(r) => return (r, log),
        };
    }
}

#[test]
fn auto_commit_outside_git_is_a_no_op() {
    let (r, log) = run(&["a.md"], opts(true, true, None), false, None, Ok(()), Ok(()));
    let o = r.unwrap();
    assert!(!o.committed && !o.pushed && o.dirty_warning.is_none());
    assert_eq!(log, vec!["check"]);
}

#[test]
fn auto_commit_respects_commit_false() {
    let (r, log) = run(&["a.md"], opts(false, true, None), true, None, Ok(()), Ok(()));
    assert!(!r.unwrap().committed);
    assert_eq!(log, vec!["check"]);
}

#[test]
fn auto_commit_commits_pushes_and_warns() {
    let (r, log) = run(
        &["wiki/a.md"],
        opts(true, true, Some("Ann <a@x>")),
        true,
        Some(" M other.md\n"),
        Ok(()),
        Ok(()),
    );
    let o = r.unwrap();
    assert!(o.committed && o.pushed);
    assert!(o.dirty_warning.unwrap().contains("other.md"));
    assert_eq!(
        log,
        vec![
            "check".to_string(),
            "status".to_string(),
            "commit Some(\"Ann <a@x>\") docs(wiki): update p".to_string(),
            "push".to_string()
        ]
    );
}

#[test]
fn auto_commit_push_failure_is_an_error() {
    let (r, _) = run(&["a.md"], opts(true, true, None), true, None, Ok(()), Err("rejected".to_string()));
    assert!(matches!(r, Err(WikiError::Git(m)) if m == "rejected"));
}

#[test]
fn auto_commit_commit_failure_skips_push() {
    let (r, log) = run(&["a.md"], opts(true, true, None), true, None, Err("boom".to_string()), Ok(()));
    assert!(matches!(r, Err(WikiError::Git(m)) if m == "boom"));
    assert!(!log.contains(&"push".to_string()));
}

#[test]
fn auto_commit_without_paths_fails() {
    let (r, _) = run(&[], opts(true, false, None), true, None, Ok(()), Ok(()));
    assert!(matches!(r, Err(WikiError::Git(m)) if m == "commit_paths requires at least one path"));
}

// What `git status --porcelain --untracked-files=all` reports in each
// repository state, with the page being committed.

fn target(p: &str) -> Vec<String> {
    vec![p.to_string()]
}

#[test]
fn dirty_warning_suppresses_when_only_dirty_thing_is_target_in_collapsed_dir() {
    let warning = dirty_warning("?? wiki/tools/foo.md\n", &target("wiki/tools/foo.md"));
    assert!(warning.is_none(), "false-positive warning when only the target is dirty: {warning:?}");
}

#[test]
fn dirty_warning_fires_when_truly_other_dirty_files_present() {
    let warning = dirty_warning("?? scratch.txt\n?? wiki/tools/foo.md\n", &target("wiki/tools/foo.md"));
    let w = warning.expect("warning expected when scratch.txt is also dirty");
    assert!(w.contains("scratch.txt"), "{w}");
}

#[test]
fn dirty_warning_ignores_lw_search_files() {
    let status = "?? .lw/search/meta.json\n?? .lw/search/segment.idx\n?? wiki/tools/bar.md\n";
    let warning = dirty_warning(status, &target("wiki/tools/bar.md"));
    assert!(warning.is_none(), "{warning:?}");
}

#[test]
fn dirty_warning_ignores_lw_backlinks_built_sentinel() {
    let warning = dirty_warning("?? .lw/backlinks/.built\n?? wiki/tools/baz.md\n", &target("wiki/tools/baz.md"));
    assert!(warning.is_none(), "{warning:?}");
}

#[test]
fn dirty_warning_fires_for_non_lw_dirty_file_positive_control() {
    let status = "?? .lw/backlinks/.built\n?? .lw/search/segment.idx\n?? wiki/other-page.md\n?? wiki/tools/qux.md\n";
    let w = dirty_warning(status, &target("wiki/tools/qux.md")).expect("warning expected for wiki/other-page.md");
    assert!(w.contains("other-page.md"), "{w}");
    assert!(!w.contains(".lw/search"), "{w}");
    assert!(!w.contains(".built"), "{w}");
}

#[test]
fn log_timestamp_edges() {
    assert_eq!(log_timestamp(" -9223372036854775808\n"), Some(i64::MIN));
    assert_eq!(log_timestamp("9223372036854775807"), Some(i64::MAX));
    assert_eq!(log_timestamp("9223372036854775808"), None);
    assert_eq!(log_timestamp("+42"), Some(42));
    assert_eq!(log_timestamp("-"), None);
    assert_eq!(log_timestamp("4 2"), None);
    assert_eq!(log_timestamp(""), None);
}
