use lw_core::git::CommitAction;
use lw_core::page::Page;
use lw_core::search::SearchSort;
use lw_core::section::split_frontmatter;
use lw_core::status::CategoryStatus;
use lw_core::tools::{
    browse_keep, commit_opts, derive_content_filename, display_path, edit_section, ingest_input,
    parse_write_mode, query_from_args, required_section, section_warning, uncategorized_count,
    write_action, IngestInput, SectionEdit, WriteMode,
};

const TEST_PAGE: &str = "\
---
title: Test Page
tags: [test]
---

## Overview
This is the overview.

## References
- existing ref

## See Also
- [[other]]
";

fn page_with_tags(tags: &[&str]) -> Page {
    Page::new("T", tags, "")
}

#[test]
fn commit_opts_default_to_commit_without_push() {
    let o = commit_opts(None, None, None, None, "1.2.3");
    assert!(o.commit);
    assert!(!o.push);
    assert_eq!(o.author, None);
    assert_eq!(o.source, None);
    assert_eq!(o.generator_version, "1.2.3");
    let o = commit_opts(Some(false), Some(true), Some("A <a@b>"), Some("url"), "v");
    assert!(!o.commit);
    assert!(o.push);
    assert_eq!(o.author, Some("A <a@b>"));
    assert_eq!(o.source, Some("url"));
}

#[test]
fn display_path_strips_the_root() {
    assert_eq!(display_path("/w", "/w/wiki/tools/a.md"), "wiki/tools/a.md");
    assert_eq!(display_path("/w", "/elsewhere/a.md"), "/elsewhere/a.md");
}

#[test]
fn write_modes_parse_and_map_to_actions() {
    assert_eq!(parse_write_mode("overwrite").unwrap(), WriteMode::Overwrite);
    assert_eq!(parse_write_mode("append_section").unwrap(), WriteMode::AppendSection);
    assert_eq!(parse_write_mode("upsert_section").unwrap(), WriteMode::UpsertSection);
    assert_eq!(parse_write_mode("replace").unwrap_err(), "Unknown write mode: 'replace'");
    assert!(matches!(write_action(WriteMode::Overwrite), CommitAction::Update));
    assert!(matches!(write_action(WriteMode::AppendSection), CommitAction::Append));
    assert!(matches!(write_action(WriteMode::UpsertSection), CommitAction::Upsert));
}

#[test]
fn section_name_is_required_for_section_modes() {
    assert_eq!(required_section("append_section", Some("Refs")).unwrap(), "Refs");
    assert_eq!(
        required_section("append_section", None).unwrap_err(),
        "'section' is required for append_section mode"
    );
    assert_eq!(
        required_section("upsert_section", Some("")).unwrap_err(),
        "'section' is required for upsert_section mode"
    );
}

#[test]
fn edit_section_appends_and_keeps_frontmatter() {
    let (fm, _) = split_frontmatter(TEST_PAGE);
    match edit_section(TEST_PAGE, "References", "- new ref", true) {
        SectionEdit::Edited { text, section_found, multiple_matches } => {
            assert!(section_found);
            assert!(!multiple_matches);
            assert!(text.starts_with(fm));
            assert!(text.contains("- existing ref"));
            assert!(text.contains("- new ref"));
            assert!(text.contains("## See Also"));
            assert!(text.find("- new ref").unwrap() < text.find("## See Also").unwrap());
        }
        SectionEdit::Noop => panic!("expected an edit"),
    }
}

#[test]
fn edit_section_upsert_replaces_content() {
    match edit_section(TEST_PAGE, "references", "- replaced", false) {
        SectionEdit::Edited { text, section_found, .. } => {
            assert!(section_found);
            assert!(text.contains("## References"));
            assert!(text.contains("- replaced"));
            assert!(!text.contains("- existing ref"));
        }
        SectionEdit::Noop => panic!("expected an edit"),
    }
}

#[test]
fn edit_section_creates_missing_section() {
    match edit_section(TEST_PAGE, "Notes", "- a note", false) {
        SectionEdit::Edited { text, section_found, .. } => {
            assert!(!section_found);
            assert!(text.contains("## Notes"));
            assert!(text.find("## Notes").unwrap() > text.find("## See Also").unwrap());
        }
        SectionEdit::Noop => panic!("expected an edit"),
    }
}

#[test]
fn edit_section_append_empty_is_noop() {
    assert!(matches!(edit_section(TEST_PAGE, "References", "", true), SectionEdit::Noop));
}

#[test]
fn section_warnings() {
    assert_eq!(
        section_warning("Refs", true, true).unwrap(),
        "Section 'Refs' matched multiple headings; operated on first occurrence"
    );
    assert_eq!(
        section_warning("Refs", false, false).unwrap(),
        "Section 'Refs' not found; created at end of page"
    );
    assert_eq!(section_warning("Refs", true, false), None);
}

#[test]
fn ingest_input_is_exclusive() {
    assert_eq!(
        ingest_input(Some("/a"), Some("b")).unwrap_err(),
        "pass either `source_path` or `content`, not both \u{2014} they are mutually exclusive"
    );
    assert_eq!(
        ingest_input(None, None).unwrap_err(),
        "pass either `source_path` (file/URL) or `content` (pasted markdown)"
    );
    assert!(matches!(ingest_input(Some("/a.md"), None), Ok(IngestInput::SourcePath(p)) if p == "/a.md"));
    assert!(matches!(ingest_input(None, Some("# x")), Ok(IngestInput::Content(c)) if c == "# x"));
}

#[test]
fn content_filename_priority() {
    assert_eq!(derive_content_filename(Some("  note.md "), Some("T"), "# H").unwrap(), "note.md");
    assert_eq!(
        derive_content_filename(Some("   "), None, "").unwrap_err(),
        "`filename` must not be empty"
    );
    assert_eq!(
        derive_content_filename(Some("a/b.md"), None, "").unwrap_err(),
        "invalid filename `a/b.md`: must not contain path separators"
    );
    assert_eq!(
        derive_content_filename(Some(".."), None, "").unwrap_err(),
        "invalid filename `..`: must not contain path separators"
    );
    assert_eq!(derive_content_filename(None, Some("My Title"), "# H").unwrap(), "my-title.md");
    assert_eq!(derive_content_filename(None, None, "intro\n# Heading One\n").unwrap(), "heading-one.md");
    assert_eq!(derive_content_filename(None, None, "no heading").unwrap(), "untitled.md");
}

#[test]
fn query_args_build_the_search() {
    let q = query_from_args("attention", Some("ml, nlp ,x"), Some("arch".to_string()), None);
    assert_eq!(q.text.as_deref(), Some("attention"));
    assert_eq!(q.tags, vec!["ml".to_string(), "nlp".to_string(), "x".to_string()]);
    assert_eq!(q.category.as_deref(), Some("arch"));
    assert_eq!(q.limit, 20);
    assert!(q.sort == SearchSort::Relevance);
    let q = query_from_args("", None, None, Some(5));
    assert!(q.text.is_none());
    assert!(q.tags.is_empty());
    assert_eq!(q.limit, 5);
}

#[test]
fn browse_filters() {
    let p = page_with_tags(&["ml", "nlp"]);
    assert!(browse_keep("tools/a.md", &p, true, None, None, false));
    assert!(browse_keep("tools/a.md", &p, true, Some("tools"), Some("ml"), false));
    assert!(!browse_keep("tools/a.md", &p, true, Some("arch"), None, false));
    assert!(!browse_keep("tools/a.md", &p, true, None, Some("cv"), false));
    assert!(!browse_keep("tools/a.md", &p, true, None, None, true));
    assert!(browse_keep("tools/a.md", &p, false, None, None, true));
    assert!(browse_keep("top.md", &p, false, Some(""), None, false));
}

#[test]
fn uncategorized_row_count() {
    let rows = vec![
        CategoryStatus { name: "tools".to_string(), page_count: 3 },
        CategoryStatus { name: "_uncategorized".to_string(), page_count: 2 },
    ];
    assert_eq!(uncategorized_count(&rows), 2);
    let only_tools = vec![CategoryStatus { name: "tools".to_string(), page_count: 3 }];
    assert_eq!(uncategorized_count(&only_tools), 0);
}
