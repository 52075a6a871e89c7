use lw_core::fs::{
    category_from_path, inside_wiki_dir, new_page, page_exists_error, validate_slug,
    validate_wiki_path, NewPageRequest,
};
use lw_core::schema::{CategoryConfig, WikiSchema};
use lw_core::WikiError;

#[test]
fn category_from_path_works() {
    let p = "architecture/transformer.md";
    assert_eq!(category_from_path(p), Some("architecture".to_string()));
    let p2 = "test.md";
    assert_eq!(category_from_path(p2), None);
}

#[test]
fn category_from_path_nested_takes_first_dir() {
    assert_eq!(category_from_path("architecture/transformers/a.md"), Some("architecture".to_string()));
    assert_eq!(category_from_path(""), None);
}

#[test]
fn validate_slug_accepts_and_rejects() {
    assert!(validate_slug("good-slug_1").is_ok());
    for bad in ["", ".hidden", "Upper", "a/b", "..", "sp ace"] {
        match validate_slug(bad) {
            Err(WikiError::InvalidSlug { slug }) => assert_eq!(slug, bad),
            other => panic!("expected InvalidSlug for {bad:?}, got {other:?}"),
        }
    }
}

fn request<'a>(category: &'a str, slug: &'a str) -> NewPageRequest<'a> {
    NewPageRequest {
        category,
        slug,
        title: "A Title".to_string(),
        tags: vec!["t".to_string()],
        author: None,
    }
}

#[test]
fn new_page_plans_path_and_page() {
    let schema = WikiSchema::default();
    let (target, page) = new_page("/w", &schema, request("tools", "my-tool")).unwrap();
    assert_eq!(target, "/w/wiki/tools/my-tool.md");
    assert_eq!(page.title, "A Title");
    assert_eq!(page.tags, vec!["t".to_string()]);
    assert_eq!(page.body, "");
}

#[test]
fn new_page_accepts_uncategorized() {
    let schema = WikiSchema::default();
    let (target, _) = new_page("/w", &schema, request("_uncategorized", "x")).unwrap();
    assert_eq!(target, "/w/wiki/_uncategorized/x.md");
}

#[test]
fn new_page_rejects_unknown_category() {
    let schema = WikiSchema::default();
    match new_page("/w", &schema, request("nope", "x")) {
        Err(WikiError::UnknownCategory { name, valid }) => {
            assert_eq!(name, "nope");
            assert_eq!(valid, "architecture, training, infra, tools, product, ops");
        }
        other => panic!("expected UnknownCategory, got {other:?}"),
    }
}

#[test]
fn new_page_rejects_bad_slug_first() {
    let schema = WikiSchema::default();
    assert!(matches!(
        new_page("/w", &schema, request("nope", "Bad Slug")),
        Err(WikiError::InvalidSlug { .. })
    ));
}

#[test]
fn new_page_enforces_required_fields_and_template() {
    let mut schema = WikiSchema::default();
    schema.categories.push((
        "tools".to_string(),
        CategoryConfig {
            review_days: Some(45),
            required_fields: vec!["title".to_string(), "author".to_string()],
            template: "## Usage\n".to_string(),
        },
    ));
    match new_page("/w", &schema, request("tools", "t")) {
        Err(WikiError::MissingRequiredField { category, field }) => {
            assert_eq!(category, "tools");
            assert_eq!(field, "author");
        }
        other => panic!("expected MissingRequiredField, got {other:?}"),
    }
    let mut req = request("tools", "t");
    req.author = Some("me".to_string());
    let (_, page) = new_page("/w", &schema, req).unwrap();
    assert_eq!(page.body, "## Usage\n");
    assert_eq!(page.author, Some("me".to_string()));
}

#[test]
fn page_exists_error_names_the_target() {
    match page_exists_error("/w/wiki/tools/t.md") {
        WikiError::PageAlreadyExists { path } => assert_eq!(path, "/w/wiki/tools/t.md"),
        other => panic!("unexpected {other:?}"),
    }
}

#[test]
fn validate_wiki_path_rejects_traversal() {
    assert_eq!(
        validate_wiki_path("/w", "/etc/passwd"),
        Err(WikiError::PathTraversal("absolute paths are not allowed".to_string()))
    );
    assert_eq!(
        validate_wiki_path("/w", "tools/../../x.md"),
        Err(WikiError::PathTraversal("path must not contain '..' components".to_string()))
    );
    assert_eq!(validate_wiki_path("/w", "tools/a.md"), Ok("/w/wiki/tools/a.md".to_string()));
}

#[test]
fn inside_wiki_dir_compares_components() {
    assert!(inside_wiki_dir("/w/wiki/tools/a.md", "/w/wiki").is_ok());
    assert!(inside_wiki_dir("/w/wiki", "/w/wiki/").is_ok());
    assert!(inside_wiki_dir("/w/wikix/a.md", "/w/wiki").is_err());
    assert!(inside_wiki_dir("/etc/passwd", "/w/wiki").is_err());
}
