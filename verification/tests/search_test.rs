use lw_core::page::Page;
use lw_core::search::{
    collector_limit, index_fields, order_hits, search_filters, search_text, strip_highlight,
    FilterField, SearchQuery, SearchSort,
};
use lw_core::WikiError;

#[test]
fn sort_parse_accepts_documented_names() {
    assert_eq!(SearchSort::parse("relevance").unwrap(), SearchSort::Relevance);
    assert_eq!(SearchSort::parse("title").unwrap(), SearchSort::Title);
    assert_eq!(SearchSort::parse("created_desc").unwrap(), SearchSort::CreatedDesc);
    assert_eq!(SearchSort::parse("created_asc").unwrap(), SearchSort::CreatedAsc);
}

#[test]
fn sort_parse_rejects_unknown() {
    assert_eq!(
        SearchSort::parse("newest"),
        Err(WikiError::Internal(
            "invalid sort 'newest' (expected: relevance | created_desc | created_asc | title)"
                .to_string()
        ))
    );
}

#[test]
fn query_defaults() {
    let q = SearchQuery::default();
    assert_eq!(q.limit, 20);
    assert_eq!(q.sort, SearchSort::Relevance);
    assert!(q.text.is_none() && q.tags.is_empty());
    assert_eq!(SearchSort::default(), SearchSort::Relevance);
}

#[test]
fn collector_limit_widens_for_post_sorts() {
    let mut q = SearchQuery::default();
    assert_eq!(collector_limit(&q), 20);
    q.sort = SearchSort::Title;
    assert_eq!(collector_limit(&q), 1000);
    q.limit = 5000;
    assert_eq!(collector_limit(&q), 5000);
}

#[test]
fn order_hits_sorts_titles_stably_and_cuts() {
    let titles: Vec<String> = ["beta", "Alpha", "alpha", "Gamma"].iter().map(|s| s.to_string()).collect();
    assert_eq!(order_hits(&titles, SearchSort::Title, 10), vec![1, 2, 0, 3]);
    assert_eq!(order_hits(&titles, SearchSort::Title, 2), vec![1, 2]);
    assert_eq!(order_hits(&titles, SearchSort::Relevance, 3), vec![0, 1, 2]);
    assert_eq!(order_hits(&titles, SearchSort::CreatedDesc, 10), vec![0, 1, 2, 3]);
}

#[test]
fn strip_highlight_removes_bold_tags() {
    assert_eq!(strip_highlight("the <b>attention</b> mechanism"), "the attention mechanism");
    assert_eq!(strip_highlight("plain"), "plain");
}

#[test]
fn index_fields_take_category_and_keyword() {
    let mut page = Page::new("Attention Is All", &["t"], "body");
    page.status = Some("draft".to_string());
    let f = index_fields("architecture/a.md", &page);
    assert_eq!(f.category, "architecture");
    assert_eq!(f.title_keyword, "attention is all");
    assert_eq!(f.status, Some("draft".to_string()));
    assert_eq!(index_fields("a.md", &page).category, "");
}

#[test]
fn category_extraction() {
    let p = lw_core::page::Page::new("T", &[], "");
    assert_eq!(index_fields("training/a.md", &p).category, "training");
    assert_eq!(index_fields("a.md", &p).category, "");
    assert_eq!(index_fields("architecture/transformers/a.md", &p).category, "architecture");
}

fn query_with(category: Option<&str>, status: Option<&str>, author: Option<&str>, tags: &[&str]) -> SearchQuery {
    let mut q = SearchQuery::default();
    q.category = category.map(|s| s.to_string());
    q.status = status.map(|s| s.to_string());
    q.author = author.map(|s| s.to_string());
    q.tags = tags.iter().map(|t| t.to_string()).collect();
    q
}

#[test]
fn empty_string_status_filter_is_ignored() {
    assert_eq!(search_filters(&query_with(None, Some(""), None, &[])), vec![]);
}

#[test]
fn empty_string_author_filter_is_ignored() {
    assert_eq!(search_filters(&query_with(None, None, Some(""), &[])), vec![]);
}

#[test]
fn empty_string_category_filter_is_ignored() {
    assert_eq!(search_filters(&query_with(Some(""), None, None, &[])), vec![]);
}

#[test]
fn filters_list_tags_then_fields() {
    let f = search_filters(&query_with(Some("tools"), Some("draft"), Some("ann"), &["a", "b"]));
    assert_eq!(
        f,
        vec![
            (FilterField::Tag, "a".to_string()),
            (FilterField::Tag, "b".to_string()),
            (FilterField::Category, "tools".to_string()),
            (FilterField::Status, "draft".to_string()),
            (FilterField::Author, "ann".to_string()),
        ]
    );
    let mut q = SearchQuery::default();
    assert_eq!(search_text(&q), None);
    q.text = Some(String::new());
    assert_eq!(search_text(&q), None);
    q.text = Some("attention".to_string());
    assert_eq!(search_text(&q), Some("attention".to_string()));
}
