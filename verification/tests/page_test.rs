use lw_core::page::{slugify, split_page, Frontmatter, Page};
use lw_core::WikiError;

#[test]
fn page_new_convenience() {
    let page = Page::new("My Title", &["tag1", "tag2"], "Body content.");
    assert_eq!(page.title, "My Title");
    assert_eq!(page.tags, vec!["tag1", "tag2"]);
    assert_eq!(page.body, "Body content.");
    assert_eq!(page.decay, None);
    assert!(page.sources.is_empty());
    assert_eq!(page.author, None);
    assert_eq!(page.generator, None);
}

#[test]
fn slugify_basic() {
    assert_eq!(slugify("Hello World"), "hello-world");
    assert_eq!(slugify("Flash Attention 2"), "flash-attention-2");
    assert_eq!(slugify("  Multiple   Spaces  "), "multiple-spaces");
    assert_eq!(slugify("Special!@#Characters"), "special-characters");
}

#[test]
fn slugify_unicode() {
    let slug = slugify("创业指南 2024");
    assert!(slug.contains("创业指南"));
}

#[test]
fn split_page_separates_yaml_and_body() {
    let (yaml, body) = split_page("---\ntitle: T\ntags: [a]\n---\n\nBody here.\n").unwrap();
    assert!(yaml.contains("title: T"));
    assert!(body.contains("Body here."));
}

#[test]
fn split_page_without_frontmatter_fails() {
    assert_eq!(
        split_page("Just markdown, no frontmatter."),
        Err(WikiError::YamlParse("no frontmatter found".to_string()))
    );
}

fn frontmatter(title: &str) -> Frontmatter {
    Frontmatter {
        title: title.to_string(),
        tags: vec!["a".to_string()],
        decay: Some("fast".to_string()),
        sources: vec![],
        author: Some("me".to_string()),
        generator: None,
        related: Some(vec!["ops/adr.md".to_string()]),
        status: Some("draft".to_string()),
        aliases: vec!["alt".to_string()],
    }
}

#[test]
fn from_frontmatter_requires_title() {
    assert_eq!(
        Page::from_frontmatter(frontmatter(""), "b".to_string()).unwrap_err(),
        WikiError::YamlParse("title is required".to_string())
    );
    let p = Page::from_frontmatter(frontmatter("T"), "b".to_string()).unwrap();
    assert_eq!(p.title, "T");
    assert_eq!(p.related, Some(vec!["ops/adr.md".to_string()]));
    assert_eq!(p.body, "b");
}

#[test]
fn frontmatter_round_trips_fields() {
    let p = Page::from_frontmatter(frontmatter("T"), "b".to_string()).unwrap();
    let fm = p.frontmatter();
    assert_eq!(fm.title, "T");
    assert_eq!(fm.status, Some("draft".to_string()));
    assert_eq!(fm.aliases, vec!["alt".to_string()]);
}

#[test]
fn frame_page_puts_yaml_between_delimiters() {
    assert_eq!(
        lw_core::page::frame_page("title: T\n", "\n\n## Body\ntext\n"),
        "---\ntitle: T\n---\n\n## Body\ntext\n"
    );
}
