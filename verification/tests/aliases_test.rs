use lw_core::aliases::{build_index, normalize, update_for_page, AliasIndex, ALIASES_DIR};
use lw_core::page::Page;

fn make_page(title: &str, tags: &[&str]) -> Page {
    Page::new(title, tags, "body")
}

// ─── Normalization (lowercase + NFC) ─────────────────────────────────────────

#[test]
fn normalize_lowercases_ascii() {
    assert_eq!(normalize("Flash Attention"), "flash attention");
    assert_eq!(normalize("FOO"), "foo");
    assert_eq!(normalize("MixedCase"), "mixedcase");
}

#[test]
fn normalize_is_idempotent() {
    let once = normalize("Tantivy");
    let twice = normalize(&once);
    assert_eq!(once, twice, "double normalization must be a no-op");
}

#[test]
fn normalize_preserves_cjk_characters_unchanged() {
    let input = "创业指南";
    assert_eq!(normalize(input), input);
}

#[test]
fn normalize_collapses_decomposed_unicode_to_nfc() {
    let decomposed = "Cafe\u{0301}";
    let nfc = "Café";
    assert_eq!(
        normalize(decomposed),
        normalize(nfc),
        "decomposed and precomposed must normalize to the same string"
    );
    assert_eq!(normalize(decomposed), nfc.to_lowercase());
}

// ─── Build: term sources (title + aliases + slug) ────────────────────────────

#[test]
fn build_index_uses_title_as_term() {
    let pages = vec![(
        "architecture/transformer-architecture.md".to_string(),
        make_page("Transformer Architecture", &["arch"]),
    )];
    let index = build_index(&pages);
    let hits = index.lookup("Transformer Architecture");
    assert_eq!(hits.len(), 1, "title must index the page: {hits:?}");
    assert_eq!(hits[0].slug, "transformer-architecture");
}

#[test]
fn build_index_uses_slug_from_filename_as_term() {
    let pages = vec![(
        "architecture/short-slug.md".to_string(),
        make_page("Some Long Title", &["arch"]),
    )];
    let index = build_index(&pages);
    let hits = index.lookup("short-slug");
    assert_eq!(hits.len(), 1, "slug derived from filename must be a term: {hits:?}");
    assert_eq!(hits[0].title, "Some Long Title");
}

#[test]
fn build_index_uses_aliases_list_as_terms() {
    let mut page = make_page("Real Title", &["arch"]);
    page.aliases = vec!["nickname".to_string(), "ALIAS-TWO".to_string()];
    let index = build_index(&[("architecture/real.md".to_string(), page)]);
    assert_eq!(index.lookup("nickname").len(), 1, "first alias indexed");
    assert_eq!(index.lookup("alias-two").len(), 1, "second alias indexed (case-folded)");
}

#[test]
fn build_index_alias_field_empty_list_adds_no_extra_terms() {
    let mut page = make_page("Title Only", &["arch"]);
    page.aliases = vec![];
    let index = build_index(&[("architecture/title-only.md".to_string(), page)]);
    let total: usize = index.terms.iter().map(|(_, v)| v.len()).sum();
    assert_eq!(total, 2, "title + slug => exactly 2 PageRef entries: {:?}", index.terms);
}

#[test]
fn build_index_multi_word_title_stored_verbatim_not_tokenized() {
    let index = build_index(&[(
        "architecture/flash-attention-2.md".to_string(),
        make_page("Flash Attention 2", &["arch"]),
    )]);
    assert_eq!(index.lookup("flash attention 2").len(), 1);
    assert!(index.lookup("attention").is_empty());
}

#[test]
fn build_index_pageref_path_uses_wiki_prefix() {
    let index = build_index(&[("architecture/x.md".to_string(), make_page("X", &["arch"]))]);
    let hits = index.lookup("x");
    assert_eq!(hits.len(), 1, "a title equal to the slug indexes the page once");
    assert_eq!(hits[0].path, "wiki/architecture/x.md");
}

#[test]
fn build_index_unicode_cjk_title_indexed_intact() {
    let index = build_index(&[(
        "_uncategorized/startup-guide.md".to_string(),
        make_page("创业指南", &["startup"]),
    )]);
    assert_eq!(index.lookup("创业指南").len(), 1);
}

#[test]
fn build_index_empty_wiki_returns_empty_index() {
    let index = build_index(&[]);
    assert!(index.terms.is_empty());
    assert!(index.lookup("anything").is_empty());
}

#[test]
fn build_index_ambiguous_term_lists_all_pages() {
    let mut a = make_page("A", &["arch"]);
    a.aliases = vec!["common".to_string()];
    let mut b = make_page("B", &["arch"]);
    b.aliases = vec!["common".to_string()];
    let index = build_index(&[
        ("architecture/a.md".to_string(), a),
        ("architecture/b.md".to_string(), b),
    ]);
    let hits = index.lookup("common");
    assert_eq!(hits.len(), 2);
    assert_eq!(hits[0].slug, "a");
    assert_eq!(hits[1].slug, "b");
}

#[test]
fn lookup_normalizes_input_so_callers_pass_raw_text() {
    let index = build_index(&[("tools/tantivy.md".to_string(), make_page("Tantivy", &["tools"]))]);
    assert_eq!(index.lookup("TANTIVY").len(), 1);
    assert_eq!(index.lookup("Tantivy").len(), 1);
    assert_eq!(index.lookup("tantivy").len(), 1);
}

#[test]
fn update_for_page_drops_aliases_removed_in_new_version() {
    let mut v1 = make_page("Page", &["tools"]);
    v1.aliases = vec!["alias-keep".to_string(), "alias-drop".to_string()];
    let mut index = AliasIndex::new();
    update_for_page(&mut index, "tools/page.md", Some(&v1));
    assert_eq!(index.lookup("alias-keep").len(), 1);
    assert_eq!(index.lookup("alias-drop").len(), 1);
    let mut v2 = make_page("Page", &["tools"]);
    v2.aliases = vec!["alias-keep".to_string()];
    update_for_page(&mut index, "tools/page.md", Some(&v2));
    assert_eq!(index.lookup("alias-keep").len(), 1);
    assert!(index.lookup("alias-drop").is_empty());
}

#[test]
fn update_for_page_handles_title_rename_and_deletion() {
    let mut index = AliasIndex::new();
    update_for_page(&mut index, "tools/page.md", Some(&make_page("Old Title", &["tools"])));
    update_for_page(&mut index, "tools/page.md", Some(&make_page("New Title", &["tools"])));
    assert!(index.lookup("old title").is_empty());
    assert_eq!(index.lookup("new title").len(), 1);
    assert_eq!(index.lookup("page").len(), 1);
    update_for_page(&mut index, "tools/page.md", None);
    assert!(index.lookup("page").is_empty());
    assert!(index.terms.is_empty());
}

#[test]
fn update_for_page_does_not_strip_same_slug_pages_in_other_categories() {
    let mut index = build_index(&[
        ("tools/foo.md".to_string(), make_page("Tools Foo", &["tools"])),
        ("architecture/foo.md".to_string(), make_page("Arch Foo", &["architecture"])),
    ]);
    assert_eq!(index.lookup("foo").len(), 2);
    update_for_page(&mut index, "tools/foo.md", Some(&make_page("Tools Foo v2", &["tools"])));
    let hits = index.lookup("foo");
    assert_eq!(hits.len(), 2);
    assert_eq!(index.lookup("arch foo").len(), 1);
}

#[test]
fn aliases_dir_is_under_lw() {
    assert_eq!(ALIASES_DIR, ".lw/aliases");
}

fn index_of(pages: &[(&str, Page)]) -> AliasIndex {
    let owned: Vec<(String, Page)> = pages.iter().map(|(r, p)| (r.to_string(), p.clone())).collect();
    build_index(&owned)
}

#[test]
fn build_index_alias_field_missing_is_treated_as_empty() {
    let index = index_of(&[("architecture/plain.md", make_page("Plain Page", &["arch"]))]);
    assert_eq!(index.lookup("Plain Page").len(), 1, "title still indexed when aliases missing");
    assert_eq!(index.lookup("plain").len(), 1, "slug still indexed when aliases missing");
}

#[test]
fn build_index_preserves_original_title_casing_in_pageref() {
    let index = index_of(&[("architecture/camel.md", make_page("CamelCase Page", &["arch"]))]);
    let hits = index.lookup("camelcase page");
    assert_eq!(hits.len(), 1);
    assert_eq!(hits[0].title, "CamelCase Page", "PageRef.title preserves original casing");
}

#[test]
fn lookup_returns_empty_for_unknown_term() {
    let index = index_of(&[("tools/real.md", make_page("Real", &["tools"]))]);
    assert!(index.lookup("nonexistent").is_empty());
}

#[test]
fn update_for_page_indexes_a_brand_new_page() {
    let mut index = AliasIndex::new();
    update_for_page(&mut index, "tools/brand-new.md", Some(&make_page("Brand New", &["tools"])));
    let hits = index.lookup("Brand New");
    assert_eq!(hits.len(), 1, "{:?}", index.terms);
    assert_eq!(hits[0].slug, "brand-new");
}

#[test]
fn update_for_page_handles_title_rename() {
    let mut index = AliasIndex::new();
    update_for_page(&mut index, "tools/page.md", Some(&make_page("Old Title", &["tools"])));
    update_for_page(&mut index, "tools/page.md", Some(&make_page("New Title", &["tools"])));
    assert!(index.lookup("old title").is_empty(), "{:?}", index.terms);
    assert_eq!(index.lookup("new title").len(), 1);
    assert_eq!(index.lookup("page").len(), 1, "slug term still resolves");
}

#[test]
fn update_for_page_handles_deleted_page() {
    let mut index = AliasIndex::new();
    update_for_page(&mut index, "tools/doomed.md", Some(&make_page("Doomed", &["tools"])));
    update_for_page(&mut index, "tools/doomed.md", None);
    assert!(index.lookup("doomed").is_empty(), "{:?}", index.terms);
}

#[test]
fn update_for_page_preserves_other_pages_terms() {
    let mut index = index_of(&[
        ("tools/alpha.md", make_page("Alpha", &["tools"])),
        ("tools/beta.md", make_page("Beta", &["tools"])),
    ]);
    let mut a_v2 = make_page("Alpha", &["tools"]);
    a_v2.aliases = vec!["a-alias".to_string()];
    update_for_page(&mut index, "tools/alpha.md", Some(&a_v2));
    assert_eq!(index.lookup("alpha").len(), 1, "alpha still indexed");
    assert_eq!(index.lookup("a-alias").len(), 1, "alpha alias added");
    assert_eq!(index.lookup("beta").len(), 1, "beta untouched");
}
