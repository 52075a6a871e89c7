use lw_core::schema::WikiSchema;
use lw_core::status::{gather_status, PageFacts};

fn facts(rel: &str, decay: Option<&str>, age: Option<i64>) -> PageFacts {
    PageFacts { rel_path: rel.to_string(), decay: decay.map(|s| s.to_string()), age_days: age }
}

#[test]
fn status_counts_categories_and_freshness() {
    let schema = WikiSchema::default();
    let pages = vec![
        facts("tools/a.md", Some("fast"), Some(40)),
        facts("tools/b.md", None, Some(1)),
        facts("ops/c.md", None, Some(80)),
        facts("top.md", None, None),
        facts("ops/d.md", Some("evergreen"), Some(5000)),
        facts("infra/e.md", None, Some(2)),
    ];
    let st = gather_status("/root/w", &schema, &pages, true);
    assert_eq!(st.root, "/root/w");
    assert_eq!(st.wiki_name, "LLM Wiki");
    assert_eq!(st.total_pages, 6);
    assert!(st.index_present);
    let rows: Vec<(String, usize)> = st.categories.iter().map(|c| (c.name.clone(), c.page_count)).collect();
    assert_eq!(
        rows,
        vec![
            ("ops".to_string(), 2),
            ("tools".to_string(), 2),
            ("_uncategorized".to_string(), 1),
            ("infra".to_string(), 1)
        ]
    );
    assert_eq!(st.freshness.stale, 1);
    assert_eq!(st.freshness.suspect, 1);
    assert_eq!(st.freshness.fresh, 3);
    assert_eq!(st.freshness.unknown, 1);
}

#[test]
fn status_of_empty_wiki() {
    let st = gather_status("/w", &WikiSchema::default(), &vec![], false);
    assert_eq!(st.total_pages, 0);
    assert!(st.categories.is_empty());
    assert_eq!(st.freshness.fresh + st.freshness.unknown, 0);
}

/// The facts of the canonical five sample pages, with no git history.
fn sample_facts() -> Vec<PageFacts> {
    vec![
        facts("architecture/transformer-architecture.md", Some("evergreen"), None),
        facts("architecture/flash-attention-2.md", Some("normal"), None),
        facts("training/rlhf-training.md", Some("normal"), None),
        facts("tools/pytorch.md", Some("fast"), None),
        facts("training/lora-fine-tuning.md", Some("normal"), None),
    ]
}

#[test]
fn gather_status_returns_valid_json_shape() {
    let status = gather_status("/w", &WikiSchema::default(), &sample_facts(), false);
    assert!(!status.wiki_name.is_empty(), "wiki_name should not be empty");
    assert_eq!(status.root, "/w");
    assert!(!status.index_present);
}

#[test]
fn gather_status_counts_pages() {
    let pages = sample_facts();
    let status = gather_status("/w", &WikiSchema::default(), &pages, false);
    assert_eq!(status.total_pages, pages.len());
}

#[test]
fn gather_status_counts_categories() {
    let status = gather_status("/w", &WikiSchema::default(), &sample_facts(), false);
    assert_eq!(status.categories.len(), 3, "should have 3 categories");
    let find_cat = |name: &str| status.categories.iter().find(|c| c.name == name).map(|c| c.page_count);
    assert_eq!(find_cat("architecture"), Some(2));
    assert_eq!(find_cat("training"), Some(2));
    assert_eq!(find_cat("tools"), Some(1));
}

#[test]
fn gather_status_freshness_totals_match() {
    let status = gather_status("/w", &WikiSchema::default(), &sample_facts(), false);
    let total = status.freshness.fresh + status.freshness.suspect + status.freshness.stale + status.freshness.unknown;
    assert_eq!(total, status.total_pages);
    assert_eq!(status.freshness.unknown, 5, "no git history: every page is unknown");
}

#[test]
fn gather_status_empty_wiki() {
    let status = gather_status("/w", &WikiSchema::default(), &vec![], false);
    assert_eq!(status.total_pages, 0);
    assert!(status.categories.is_empty());
    assert_eq!(status.freshness.fresh, 0);
    assert_eq!(status.freshness.suspect, 0);
    assert_eq!(status.freshness.stale, 0);
    assert_eq!(status.freshness.unknown, 0);
}

#[test]
fn category_counts_add_up_to_total() {
    let status = gather_status("/w", &WikiSchema::default(), &sample_facts(), false);
    let sum: usize = status.categories.iter().map(|c| c.page_count).sum();
    assert_eq!(sum, status.total_pages);
}
