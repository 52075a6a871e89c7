use lw_core::section::{apply_append, apply_upsert, find_section, split_frontmatter};


const SAMPLE_PAGE: &str = "\
---
title: Example
tags: [test]
---

## Overview
This is the overview.

## References
- existing ref

## See Also
- [[other]]
";

#[test]
fn split_frontmatter_basic() {
    let (fm, body) = split_frontmatter(SAMPLE_PAGE);
    assert!(fm.starts_with("---\n"));
    assert!(fm.ends_with("---\n"));
    assert!(fm.contains("title: Example"));
    assert!(body.starts_with("\n## Overview"));
}

#[test]
fn split_frontmatter_no_frontmatter() {
    let raw = "## Just a heading\nSome text\n";
    let (fm, body) = split_frontmatter(raw);
    assert_eq!(fm, "");
    assert_eq!(body, raw);
}

#[test]
fn split_frontmatter_preserves_bytes() {
    let raw = "---\ntitle: \"Quoted Title\"\ntags: [a, b]\n---\n\n## Body\n";
    let (fm, body) = split_frontmatter(raw);
    assert_eq!(fm, "---\ntitle: \"Quoted Title\"\ntags: [a, b]\n---\n");
    assert_eq!(body, "\n## Body\n");
}

#[test]
fn find_section_by_name() {
    let (_, body) = split_frontmatter(SAMPLE_PAGE);
    let m = find_section(body, "References").unwrap();
    let section_text = &body[m.heading_start..m.section_end];
    assert!(section_text.starts_with("## References"));
    assert!(section_text.contains("- existing ref"));
    assert!(!section_text.contains("## See Also"));
    assert_eq!(m.level, 2);
    assert!(!m.multiple_matches);
}

#[test]
fn find_section_case_insensitive() {
    let (_, body) = split_frontmatter(SAMPLE_PAGE);
    let m = find_section(body, "references").unwrap();
    assert!(body[m.heading_start..].starts_with("## References"));
}

#[test]
fn find_section_any_level() {
    let body = "### Deep Heading\ncontent\n## Next\n";
    let m = find_section(body, "Deep Heading").unwrap();
    assert_eq!(m.level, 3);
    assert!(body[m.heading_start..m.section_end].contains("content"));
}

#[test]
fn find_section_respects_nesting() {
    let body = "## Parent\ntext\n### Child\nchild text\n## Next\nafter\n";
    let m = find_section(body, "Parent").unwrap();
    let section = &body[m.heading_start..m.section_end];
    assert!(section.contains("### Child"));
    assert!(section.contains("child text"));
    assert!(!section.contains("## Next"));
}

#[test]
fn find_section_not_found() {
    let (_, body) = split_frontmatter(SAMPLE_PAGE);
    assert!(find_section(body, "Nonexistent").is_none());
}

#[test]
fn find_section_skips_code_fences() {
    let body = "## Real\ncontent\n```\n## Fake\ninside code\n```\n## Next\n";
    assert!(find_section(body, "Fake").is_none());
    assert!(find_section(body, "Real").is_some());
}

#[test]
fn find_section_multiple_matches() {
    let body = "## Notes\nfirst\n## Notes\nsecond\n";
    let m = find_section(body, "Notes").unwrap();
    assert!(m.multiple_matches);
    let section = &body[m.heading_start..m.section_end];
    assert!(section.contains("first"));
    assert!(!section.contains("second"));
}

#[test]
fn find_section_setext_heading() {
    let body = "Overview\n========\nsome content\n\n# Next\n";
    let m = find_section(body, "Overview").unwrap();
    assert_eq!(m.level, 1);
    let section = &body[m.heading_start..m.section_end];
    assert!(section.contains("some content"));
    assert!(!section.contains("# Next"));
}

#[test]
fn apply_append_existing() {
    let (_, body) = split_frontmatter(SAMPLE_PAGE);
    let (result, found) = apply_append(body, "References", "- new ref").unwrap();
    assert!(found);
    assert!(result.contains("- existing ref"));
    assert!(result.contains("- new ref"));
    let existing_pos = result.find("- existing ref").unwrap();
    let new_pos = result.find("- new ref").unwrap();
    assert!(new_pos > existing_pos);
    assert!(result.contains("## See Also"));
    assert!(result.contains("- [[other]]"));
}

#[test]
fn apply_append_missing() {
    let (_, body) = split_frontmatter(SAMPLE_PAGE);
    let (result, found) = apply_append(body, "Notes", "some notes").unwrap();
    assert!(!found);
    assert!(result.contains("## Notes"));
    assert!(result.contains("some notes"));
    let notes_pos = result.find("## Notes").unwrap();
    let see_also_pos = result.find("## See Also").unwrap();
    assert!(notes_pos > see_also_pos);
}

#[test]
fn apply_append_empty_is_noop() {
    let (_, body) = split_frontmatter(SAMPLE_PAGE);
    let result = apply_append(body, "References", "");
    assert!(result.is_none());
}

#[test]
fn apply_upsert_existing() {
    let (_, body) = split_frontmatter(SAMPLE_PAGE);
    let (result, found) = apply_upsert(body, "References", "- replaced");
    assert!(found);
    assert!(result.contains("## References"));
    assert!(result.contains("- replaced"));
    assert!(!result.contains("- existing ref"));
    assert!(result.contains("## Overview"));
    assert!(result.contains("## See Also"));
}

#[test]
fn apply_upsert_missing() {
    let (_, body) = split_frontmatter(SAMPLE_PAGE);
    let (result, found) = apply_upsert(body, "Notes", "new notes");
    assert!(!found);
    assert!(result.contains("## Notes"));
    assert!(result.contains("new notes"));
}

#[test]
fn apply_upsert_empty_clears_body() {
    let (_, body) = split_frontmatter(SAMPLE_PAGE);
    let (result, found) = apply_upsert(body, "References", "");
    assert!(found);
    assert!(result.contains("## References"));
    assert!(!result.contains("- existing ref"));
    assert!(result.contains("## See Also"));
}

#[test]
fn tight_list_preservation() {
    let body = "## Refs\n- a\n\n## Next\n";
    let (result, _) = apply_append(body, "Refs", "- b").unwrap();
    assert!(result.contains("- a\n- b\n"));
    assert!(!result.contains("- a\n\n- b"));
}

#[test]
fn frontmatter_preservation() {
    let raw = "---\ntitle: \"Quoted\"\ntags: [a, b]\n---\n\n## Sec\ntext\n";
    let (fm, body) = split_frontmatter(raw);
    let (new_body, _) = apply_append(body, "Sec", "appended").unwrap();
    let reassembled = format!("{}{}", fm, new_body);
    assert!(reassembled.starts_with("---\ntitle: \"Quoted\"\ntags: [a, b]\n---\n"));
}

// Section writes on a whole page file: the frontmatter block is kept as
// written and the body is edited.

const TEST_PAGE: &str = "\
---
title: Test Page
tags: [test]
---

## Overview
This is the overview.

## References
- existing ref

## See Also
- [[other]]
";

#[test]
fn integration_append_section() {
    let (fm, body) = split_frontmatter(TEST_PAGE);
    let (new_body, found) = apply_append(body, "References", "- new ref").unwrap();
    assert!(found);
    let output = format!("{}{}", fm, new_body);
    assert!(output.contains("- existing ref"));
    assert!(output.contains("- new ref"));
    assert!(output.contains("## See Also"));
    assert!(output.starts_with("---\ntitle: Test Page\n"));
}

#[test]
fn integration_upsert_section() {
    let (fm, body) = split_frontmatter(TEST_PAGE);
    let (new_body, found) = apply_upsert(body, "References", "- replaced");
    assert!(found);
    let output = format!("{}{}", fm, new_body);
    assert!(output.contains("## References"));
    assert!(output.contains("- replaced"));
    assert!(!output.contains("- existing ref"));
}

#[test]
fn integration_append_empty_noop() {
    let (_, body) = split_frontmatter(TEST_PAGE);
    assert!(apply_append(body, "References", "").is_none());
}

#[test]
fn integration_frontmatter_preserved_after_section_op() {
    let content = "---\ntitle: \"Quoted Title\"\ntags: [a, b]\n---\n\n## Section\ncontent\n";
    let (fm, body) = split_frontmatter(content);
    let (new_body, _) = apply_append(body, "Section", "- appended").unwrap();
    let output = format!("{}{}", fm, new_body);
    let (result_fm, _) = split_frontmatter(&output);
    assert_eq!(result_fm, fm);
}

#[test]
fn upsert_on_last_heading_without_newline_keeps_the_heading() {
    assert_eq!(apply_upsert("## Notes", "Notes", "x"), ("## Notes\nx\n".to_string(), true));
    assert_eq!(apply_upsert("## Notes", "Notes", ""), ("## Notes".to_string(), true));
    assert_eq!(apply_append("## Notes", "Notes", "x"), Some(("## Notes\nx\n".to_string(), true)));
}

#[test]
fn heading_text_joins_text_and_code_spans() {
    let body = "## Use `cargo` *now*\nbody\n## Next\n";
    let m = find_section(body, "use cargo now").expect("heading text is its text and code spans");
    assert_eq!(m.level, 2);
    assert!(find_section(body, "Use `cargo` *now*").is_none());
}

#[test]
fn find_section_reports_byte_offsets() {
    let body = "## Café\nthé\n## Next\n";
    let m = find_section(body, "café").unwrap();
    assert_eq!(m.heading_start, 0);
    assert_eq!(m.heading_end, "## Café\n".len());
    assert_eq!(m.section_end, "## Café\nthé\n".len());
    assert_eq!(&body[m.heading_end..m.section_end], "thé\n");
}
