use lw_core::aliases::{build_index, AliasIndex};
use lw_core::mentions::{find_unlinked_mentions, UnlinkedMention, MAX_WINDOW_TOKENS};
use lw_core::page::Page;

fn make_page(title: &str, tags: &[&str], decay: &str, body: &str) -> Page {
    let mut p = Page::new(title, tags, body);
    p.decay = Some(decay.to_string());
    p
}

/// An alias index holding exactly the given (path under wiki/, page) pairs.
fn index_with(pages: &[(&str, Page)]) -> AliasIndex {
    let owned: Vec<(String, Page)> =
        pages.iter().map(|(rel, p)| (rel.to_string(), p.clone())).collect();
    build_index(&owned)
}

fn mentions_for(body: &str, index: &AliasIndex) -> Vec<UnlinkedMention> {
    find_unlinked_mentions(body, index, "")
}

fn tantivy_index() -> AliasIndex {
    index_with(&[("tools/tantivy.md", make_page("Tantivy", &["tools"], "normal", "body"))])
}

#[test]
fn empty_body_returns_no_mentions() {
    let index = index_with(&[(
        "tools/transformer.md",
        make_page("Transformer", &["arch"], "normal", "body"),
    )]);
    assert!(mentions_for("", &index).is_empty());
}

#[test]
fn empty_index_returns_no_mentions() {
    let index = AliasIndex::new();
    let hits = mentions_for("Transformer architecture is widely used.", &index);
    assert!(hits.is_empty(), "empty index must produce no mentions: {hits:?}");
}

#[test]
fn case_insensitive_single_token_match() {
    let index = tantivy_index();
    let hits = mentions_for("We use TANTIVY for full-text search.", &index);
    assert_eq!(hits.len(), 1, "{hits:?}");
    assert_eq!(hits[0].target_slug, "tantivy");
    assert_eq!(hits[0].line, 1);
    assert!(hits[0].context.contains("TANTIVY"), "{:?}", hits[0].context);
}

#[test]
fn multi_word_title_match_uses_token_window() {
    let index = index_with(&[(
        "architecture/flash-attention-2.md",
        make_page("Flash Attention 2", &["arch"], "normal", "body"),
    )]);
    let hits = mentions_for("We benchmarked flash attention 2 against the baseline.", &index);
    assert_eq!(hits.len(), 1, "{hits:?}");
    assert_eq!(hits[0].target_slug, "flash-attention-2");
    assert!(hits[0].term.to_lowercase().contains("flash attention 2"), "{:?}", hits[0].term);
}

#[test]
fn multi_word_match_is_greedy_longest_wins() {
    let index = index_with(&[
        ("architecture/attention.md", make_page("Attention", &["arch"], "normal", "body")),
        (
            "architecture/flash-attention-2.md",
            make_page("Flash Attention 2", &["arch"], "normal", "body"),
        ),
    ]);
    let hits = mentions_for("Read about flash attention 2 here.", &index);
    let slugs: Vec<&str> = hits.iter().map(|h| h.target_slug.as_str()).collect();
    assert!(slugs.contains(&"flash-attention-2"), "{hits:?}");
    assert!(!slugs.contains(&"attention"), "{hits:?}");
}

#[test]
fn alias_match_resolves_via_index() {
    let mut page = make_page("Tantivy", &["tools"], "normal", "body");
    page.aliases = vec!["tantivy-search".to_string()];
    let index = index_with(&[("tools/tantivy.md", page)]);
    let hits = mentions_for("We migrated from Lucene to tantivy-search last year.", &index);
    assert_eq!(hits.len(), 1, "{hits:?}");
    assert_eq!(hits[0].target_slug, "tantivy");
}

#[test]
fn already_linked_term_is_excluded() {
    let hits = mentions_for("We use [[tantivy]] for full-text search.", &tantivy_index());
    assert!(hits.is_empty(), "{hits:?}");
}

#[test]
fn already_linked_with_pipe_alias_is_excluded() {
    let hits = mentions_for("We use [[tantivy|the search engine]] here.", &tantivy_index());
    assert!(hits.is_empty(), "{hits:?}");
}

#[test]
fn unlinked_term_on_same_line_as_a_link_is_still_flagged() {
    let index = index_with(&[
        ("tools/foo.md", make_page("Foo", &["tools"], "normal", "body")),
        ("tools/bar.md", make_page("Bar", &["tools"], "normal", "body")),
    ]);
    let hits = mentions_for("See [[foo]] and also bar for details.", &index);
    let slugs: Vec<&str> = hits.iter().map(|h| h.target_slug.as_str()).collect();
    assert!(slugs.contains(&"bar"), "{hits:?}");
    assert!(!slugs.contains(&"foo"), "{hits:?}");
}

#[test]
fn fenced_code_block_content_is_excluded() {
    let body = "Some prose.\n```rust\nlet x = tantivy::Index::create();\n```\nMore prose.";
    let hits = mentions_for(body, &tantivy_index());
    assert!(hits.is_empty(), "{hits:?}");
}

#[test]
fn text_after_closing_fence_is_re_enabled() {
    let body = "Intro.\n```\nignored tantivy here\n```\nUse tantivy outside.";
    let hits = mentions_for(body, &tantivy_index());
    assert_eq!(hits.len(), 1, "{hits:?}");
    assert_eq!(hits[0].target_slug, "tantivy");
    assert_eq!(hits[0].line, 5, "{hits:?}");
}

#[test]
fn inline_code_content_is_excluded() {
    let hits = mentions_for("Look at the `tantivy` API for details.", &tantivy_index());
    assert!(hits.is_empty(), "{hits:?}");
}

#[test]
fn inline_code_does_not_swallow_rest_of_line() {
    let index = index_with(&[
        ("tools/tantivy.md", make_page("Tantivy", &["tools"], "normal", "body")),
        ("tools/lucene.md", make_page("Lucene", &["tools"], "normal", "body")),
    ]);
    let hits = mentions_for("Compare `tantivy` to lucene now.", &index);
    let slugs: Vec<&str> = hits.iter().map(|h| h.target_slug.as_str()).collect();
    assert!(slugs.contains(&"lucene"), "{hits:?}");
    assert!(!slugs.contains(&"tantivy"), "{hits:?}");
}

#[test]
fn url_content_is_excluded() {
    let hits = mentions_for("See https://example.com/tantivy/docs for the manual.", &tantivy_index());
    assert!(hits.is_empty(), "{hits:?}");
}

#[test]
fn http_url_is_also_excluded() {
    let hits = mentions_for(
        "Mirror at http://example.org/tantivy/index.html for offline use.",
        &tantivy_index(),
    );
    assert!(hits.is_empty(), "{hits:?}");
}

#[test]
fn frontmatter_block_is_excluded_and_lines_after_it_count_correctly() {
    let body = "---\ntitle: Doc with frontmatter\naliases: [tantivy]\n---\n\nWe use tantivy here.";
    let hits = mentions_for(body, &tantivy_index());
    assert_eq!(hits.len(), 1, "{hits:?}");
    assert_eq!(hits[0].target_slug, "tantivy");
    assert!(hits[0].line >= 5, "{hits:?}");
}

#[test]
fn self_reference_is_not_flagged() {
    let hits = find_unlinked_mentions("Tantivy is a Rust search library.", &tantivy_index(), "tantivy");
    assert!(hits.is_empty(), "{hits:?}");
}

#[test]
fn other_pages_still_flag_when_self_slug_set() {
    let index = index_with(&[
        ("tools/tantivy.md", make_page("Tantivy", &["tools"], "normal", "body")),
        ("tools/lucene.md", make_page("Lucene", &["tools"], "normal", "body")),
    ]);
    let hits = find_unlinked_mentions("Tantivy is faster than Lucene.", &index, "tantivy");
    let slugs: Vec<&str> = hits.iter().map(|h| h.target_slug.as_str()).collect();
    assert!(!slugs.contains(&"tantivy"), "{hits:?}");
    assert!(slugs.contains(&"lucene"), "{hits:?}");
}

#[test]
fn ambiguous_term_emits_one_mention_per_page() {
    let mut a = make_page("A", &["arch"], "normal", "body");
    a.aliases = vec!["common".to_string()];
    let mut b = make_page("B", &["arch"], "normal", "body");
    b.aliases = vec!["common".to_string()];
    let index = index_with(&[("architecture/a.md", a), ("architecture/b.md", b)]);
    let hits = mentions_for("The common term shows up here.", &index);
    assert_eq!(hits.len(), 2, "{hits:?}");
    let slugs: Vec<&str> = hits.iter().map(|h| h.target_slug.as_str()).collect();
    assert!(slugs.contains(&"a"));
    assert!(slugs.contains(&"b"));
    assert_eq!(hits[0].line, hits[1].line);
    assert_eq!(hits[0].term, hits[1].term);
}

#[test]
fn unicode_cjk_title_match() {
    let index = index_with(&[(
        "_uncategorized/startup-guide.md",
        make_page("创业指南", &["startup"], "normal", "body"),
    )]);
    let hits = mentions_for("今天读了创业指南这本书。", &index);
    assert_eq!(hits.len(), 1, "{hits:?}");
    assert_eq!(hits[0].target_slug, "startup-guide");
}

#[test]
fn unicode_accented_title_match_with_decomposed_input() {
    let index = index_with(&[("_uncategorized/cafe.md", make_page("Café", &["food"], "normal", "body"))]);
    let hits = mentions_for("Visited the Cafe\u{0301} downtown today.", &index);
    assert_eq!(hits.len(), 1, "{hits:?}");
    assert_eq!(hits[0].target_slug, "cafe");
}

#[test]
fn window_cap_n_equals_four_documented() {
    assert_eq!(MAX_WINDOW_TOKENS, 4);
}

#[test]
fn five_token_title_is_not_matched_by_window_scan() {
    let index = index_with(&[(
        "_uncategorized/long.md",
        make_page("alpha beta gamma delta epsilon", &["x"], "normal", "body"),
    )]);
    let hits = mentions_for("Discuss alpha beta gamma delta epsilon today.", &index);
    assert!(hits.is_empty(), "{hits:?}");
}

#[test]
fn context_snippet_centered_on_match_for_long_lines() {
    let prefix = "lorem ipsum dolor sit amet ".repeat(8);
    let suffix = " consectetur adipiscing elit sed do eiusmod tempor".to_string();
    let body = format!("{prefix}tantivy{suffix}");
    let hits = mentions_for(&body, &tantivy_index());
    assert_eq!(hits.len(), 1, "{hits:?}");
    let ctx = &hits[0].context;
    assert!(ctx.contains("tantivy"), "{ctx:?}");
    assert!(ctx.len() < body.len(), "ctx_len={}, body_len={}", ctx.len(), body.len());
}

#[test]
fn perf_under_100ms_on_500_page_wiki() {
    let mut pages: Vec<(String, Page)> = Vec::new();
    for i in 0..500 {
        let title = format!("Page Title {i}");
        pages.push((format!("bench/page-{i:03}.md"), make_page(&title, &["bench"], "normal", "body")));
    }
    let index = build_index(&pages);
    let mut body = String::new();
    body.push_str("This page references [[page-001]] and discusses Page Title 7\n");
    body.push_str("along with Page Title 13 and a fenced block:\n");
    body.push_str("```\nlet x = page_title_99();\n```\n");
    body.push_str("plus a URL https://example.com/page-200/index.html.\n");
    for i in 0..30 {
        body.push_str(&format!("Line {i}: discussing Page Title {} in some prose.\n", (i + 50) % 500));
    }
    let start = std::time::Instant::now();
    let hits = find_unlinked_mentions(&body, &index, "");
    let elapsed = start.elapsed();
    assert!(!hits.is_empty(), "expected at least one match in the perf body");
    println!("find_unlinked_mentions on 500-page wiki: {elapsed:?}");
}

#[test]
fn unlinked_mention_compares_by_fields() {
    let m = UnlinkedMention {
        term: "Tantivy".into(),
        target_slug: "tantivy".into(),
        line: 1,
        context: "We use Tantivy.".into(),
    };
    assert_eq!(m.clone(), m);
}

// Exact values of the rules above.

#[test]
fn mention_fields_are_exact() {
    let hits = mentions_for("We use TANTIVY for search.", &tantivy_index());
    assert_eq!(
        hits,
        vec![UnlinkedMention {
            term: "TANTIVY".to_string(),
            target_slug: "tantivy".to_string(),
            line: 1,
            context: "We use TANTIVY for search.".to_string(),
        }]
    );
}

#[test]
fn long_line_context_is_cut_with_ellipses() {
    let body = format!("{}tantivy{}", "a ".repeat(50), " b".repeat(50));
    let hits = mentions_for(&body, &tantivy_index());
    assert_eq!(hits.len(), 1);
    let expected = format!("\u{2026}{}tantivy{}\u{2026}", "a ".repeat(20), " b".repeat(20));
    assert_eq!(hits[0].context, expected);
}

#[test]
fn unclosed_frontmatter_is_body_text() {
    let hits = mentions_for("---\ntantivy here", &tantivy_index());
    assert_eq!(hits.len(), 1);
    assert_eq!(hits[0].line, 2);
}

#[test]
fn indented_fence_and_unclosed_link_mask() {
    let body = "  ```\ntantivy\n  ```\nsee [[tantivy and more\ntantivy";
    let hits = mentions_for(body, &tantivy_index());
    assert_eq!(hits.len(), 1, "{hits:?}");
    assert_eq!(hits[0].line, 5);
}

#[test]
fn cjk_terms_join_without_spaces() {
    let index = index_with(&[("_uncategorized/x.md", make_page("指南", &[], "normal", "body"))]);
    let hits = mentions_for("读指南", &index);
    assert_eq!(hits.len(), 1);
    assert_eq!(hits[0].term, "指南");
}

#[test]
fn mentions_name_other_indexed_pages_on_body_lines() {
    let index = index_with(&[
        ("tools/tantivy.md", make_page("Tantivy", &["tools"], "normal", "body")),
        ("tools/lucene.md", make_page("Lucene", &["tools"], "normal", "body")),
    ]);
    let body = "Tantivy and lucene.\n\nLucene again, and tantivy.";
    let hits = find_unlinked_mentions(body, &index, "tantivy");
    assert_eq!(hits.len(), 2);
    for h in &hits {
        assert_ne!(h.target_slug, "tantivy");
        assert!(h.line >= 1 && h.line as usize <= body.lines().count());
        assert!(index.lookup(&h.term).iter().any(|r| r.slug == h.target_slug));
    }
    assert_eq!((hits[0].line, hits[1].line), (1, 3));
}
