use lw_core::fs::{new_page, page_exists_error, validate_wiki_path, NewPageRequest};
use lw_core::schema::{CategoryConfig, WikiSchema};
use lw_core::WikiError;

const ROOT: &str = "/tmp/test-wiki";

fn schema_with_tools_category() -> WikiSchema {
    let mut schema = WikiSchema::default();
    schema.categories.push((
        "tools".to_string(),
        CategoryConfig {
            review_days: None,
            required_fields: vec!["title".to_string()],
            template: "## Overview\n\nDescribe the tool here.\n".to_string(),
        },
    ));
    schema
}

fn request<'a>(category: &'a str, slug: &'a str, title: &str, tags: &[&str]) -> NewPageRequest<'a> {
    NewPageRequest {
        category,
        slug,
        title: title.to_string(),
        tags: tags.iter().map(|t| t.to_string()).collect(),
        author: None,
    }
}

fn assert_invalid_slug(slug: &str) {
    match new_page(ROOT, &WikiSchema::default(), request("tools", slug, "Title", &[])) {
        Err(WikiError::InvalidSlug { slug: bad }) => assert_eq!(bad, slug),
        other => panic!("expected InvalidSlug for slug={slug:?}, got {other:?}"),
    }
}

#[test]
fn happy_path_creates_file_with_correct_content() {
    let schema = schema_with_tools_category();
    let mut req = request("tools", "my-tool", "My Tool", &["rust", "cli"]);
    req.author = Some("alice".to_string());
    let (path, page) = new_page(ROOT, &schema, req).unwrap();
    assert_eq!(path, "/tmp/test-wiki/wiki/tools/my-tool.md");
    assert_eq!(page.title, "My Tool");
    assert_eq!(page.tags, vec!["rust".to_string(), "cli".to_string()]);
    assert_eq!(page.author, Some("alice".to_string()));
    assert_eq!(page.body, "## Overview\n\nDescribe the tool here.\n");
}

#[test]
fn missing_required_title_returns_error() {
    match new_page(ROOT, &schema_with_tools_category(), request("tools", "empty-title", "", &[])) {
        Err(WikiError::MissingRequiredField { category, field }) => {
            assert_eq!(category, "tools");
            assert_eq!(field, "title");
        }
        other => panic!("expected MissingRequiredField, got {other:?}"),
    }
}

#[test]
fn missing_required_tags_returns_error() {
    let mut schema = WikiSchema::default();
    schema.categories.push((
        "tools".to_string(),
        CategoryConfig { review_days: None, required_fields: vec!["tags".to_string()], template: String::new() },
    ));
    match new_page(ROOT, &schema, request("tools", "notags", "No Tags", &[])) {
        Err(WikiError::MissingRequiredField { category, field }) => {
            assert_eq!(category, "tools");
            assert_eq!(field, "tags");
        }
        other => panic!("expected MissingRequiredField, got {other:?}"),
    }
}

#[test]
fn unknown_category_returns_error() {
    let schema = WikiSchema::default();
    match new_page(ROOT, &schema, request("nonexistent-category", "some-slug", "Title", &["rust"])) {
        Err(WikiError::UnknownCategory { name, valid }) => {
            assert_eq!(name, "nonexistent-category");
            for cat in &schema.tags.categories {
                assert!(valid.contains(cat.as_str()), "valid list '{valid}' must contain '{cat}'");
            }
        }
        other => panic!("expected UnknownCategory, got {other:?}"),
    }
}

#[test]
fn uncategorized_accepted_with_empty_template() {
    let (path, page) =
        new_page(ROOT, &WikiSchema::default(), request("_uncategorized", "misc-note", "Misc Note", &[])).unwrap();
    assert_eq!(path, "/tmp/test-wiki/wiki/_uncategorized/misc-note.md");
    assert!(page.body.trim().is_empty());
}

#[test]
fn empty_slug_is_invalid() {
    assert_invalid_slug("");
}

#[test]
fn slug_with_slash_is_invalid() {
    assert_invalid_slug("foo/bar");
}

#[test]
fn slug_double_dot_is_invalid() {
    assert_invalid_slug("..");
}

#[test]
fn slug_leading_dot_is_invalid() {
    assert_invalid_slug(".hidden");
}

#[test]
fn slug_uppercase_is_invalid() {
    assert_invalid_slug("FooBar");
}

#[test]
fn slug_with_space_is_invalid() {
    assert_invalid_slug("foo bar");
}

#[test]
fn valid_slugs_are_accepted() {
    for valid in ["foo", "foo-bar", "foo_bar", "foo123", "123", "a-b-c"] {
        new_page(ROOT, &WikiSchema::default(), request("tools", valid, "T", &[]))
            .unwrap_or_else(|e| panic!("slug {valid:?} should be valid but got {e:?}"));
    }
}

#[test]
fn category_without_config_block_uses_empty_template() {
    let schema = WikiSchema::default();
    let (path, page) = new_page(ROOT, &schema, request("architecture", "transformer", "Transformer", &["ml"])).unwrap();
    assert_eq!(path, "/tmp/test-wiki/wiki/architecture/transformer.md");
    assert!(page.body.trim().is_empty());
}

#[test]
fn no_author_is_accepted() {
    let (_, page) = new_page(ROOT, &WikiSchema::default(), request("tools", "no-author", "No Author", &[])).unwrap();
    assert_eq!(page.author, None);
}

// The lexical path checks.

fn assert_traversal(rel: &str) {
    match validate_wiki_path(ROOT, rel) {
        Err(WikiError::PathTraversal(_)) => {}
        other => panic!("expected PathTraversal for {rel:?}, got {other:?}"),
    }
}

#[test]
fn test_path_traversal_dotdot_rejected() {
    assert_traversal("../etc/passwd");
}

#[test]
fn test_path_traversal_absolute_path_rejected() {
    assert_traversal("/etc/passwd");
}

#[test]
fn test_valid_relative_path_accepted() {
    assert_eq!(validate_wiki_path(ROOT, "architecture/foo.md").unwrap(), "/tmp/test-wiki/wiki/architecture/foo.md");
}

#[test]
fn test_path_traversal_nested_dotdot() {
    assert_traversal("architecture/../../etc/passwd");
}

#[test]
fn test_path_traversal_raw_papers_escape() {
    assert_traversal("../raw/papers/secret.pdf");
}

#[test]
fn test_valid_simple_path_accepted() {
    assert_eq!(validate_wiki_path(ROOT, "test.md").unwrap(), "/tmp/test-wiki/wiki/test.md");
}

#[test]
fn test_path_traversal_encoded_dot_dot() {
    assert_traversal("architecture/../../../etc/passwd");
}

#[test]
fn duplicate_slug_returns_page_already_exists() {
    // The library plans the page; a file already at the target is refused
    // with the target's full path.
    let schema = schema_with_tools_category();
    let (target, _) = new_page(ROOT, &schema, request("tools", "duplicate", "Duplicate Tool", &[])).unwrap();
    match page_exists_error(&target) {
        WikiError::PageAlreadyExists { path } => assert_eq!(path, "/tmp/test-wiki/wiki/tools/duplicate.md"),
        other => panic!("expected PageAlreadyExists, got {other:?}"),
    }
}
