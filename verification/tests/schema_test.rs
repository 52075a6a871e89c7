use lw_core::schema::{CategoryConfig, WikiSchema};

#[test]
fn default_schema_is_valid() {
    let schema = WikiSchema::default();
    assert_eq!(schema.wiki.default_review_days, 90);
    assert!(!schema.tags.categories.is_empty());
}

#[test]
fn decay_for_category() {
    let schema = WikiSchema::default();
    assert_eq!(schema.decay_for_category("product"), "fast");
    assert_eq!(schema.decay_for_category("architecture"), "normal");
    assert_eq!(schema.decay_for_category("unknown"), "normal");
}

/// The schema of `[categories.tools] review_days = 45, required_fields =
/// ["title"], template = ""`.
#[test]
fn category_config_helper() {
    let mut schema = WikiSchema::default();
    schema.wiki.name = "Helper Wiki".to_string();
    schema.tags.categories = vec!["tools".to_string()];
    schema.categories = vec![(
        "tools".to_string(),
        CategoryConfig {
            review_days: Some(45),
            required_fields: vec!["title".to_string()],
            template: String::new(),
        },
    )];

    let cfg: Option<&CategoryConfig> = schema.category_config("tools");
    assert!(cfg.is_some(), "known category should return Some");
    assert_eq!(cfg.unwrap().review_days, Some(45));

    let missing = schema.category_config("nonexistent");
    assert!(missing.is_none(), "unknown category should return None");
}

#[test]
fn category_dirs_add_uncategorized() {
    let schema = WikiSchema::default();
    let dirs = schema.category_dirs();
    assert_eq!(dirs.last().unwrap(), "_uncategorized");
    assert_eq!(dirs.len(), 7);
}

#[test]
fn journal_threshold_defaults_to_seven() {
    let mut schema = WikiSchema::default();
    assert_eq!(schema.journal_stale_after_days(), 7);
    schema.journal.stale_after_days = Some(3);
    assert_eq!(schema.journal_stale_after_days(), 3);
}
