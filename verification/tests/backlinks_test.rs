use lw_core::backlinks::{
    build_index, extract_link_lines, lists_source, sidecar_path, sidecar_update, slug_from_wiki_path,
    snippet_for, source_path, stale_targets, updated_sources, BacklinkKind, BacklinkRecord, BacklinkSource, BACKLINKS_DIR,
};
use lw_core::page::Page;

#[test]
fn extract_link_lines_finds_wikilinks_per_line() {
    let body = "first line has [[foo]]\nsecond line links [[bar]] and [[baz]]\nthird is plain";
    let pairs = extract_link_lines(body);
    let slugs: Vec<&str> = pairs.iter().map(|(s, _)| s.as_str()).collect();
    assert!(slugs.contains(&"foo"), "should find foo: {slugs:?}");
    assert!(slugs.contains(&"bar"), "should find bar: {slugs:?}");
    assert!(slugs.contains(&"baz"), "should find baz: {slugs:?}");
    assert_eq!(slugs.len(), 3, "no extra slugs: {slugs:?}");
    for (slug, line) in &pairs {
        assert!(
            line.contains(&format!("[[{slug}")),
            "line for slug {slug} must contain the wikilink: {line}"
        );
    }
}

#[test]
fn extract_link_lines_handles_pipe_display() {
    let body = "ref [[slug-x|some display]] inline";
    let pairs = extract_link_lines(body);
    assert_eq!(pairs.len(), 1, "one wikilink: {pairs:?}");
    assert_eq!(pairs[0].0, "slug-x", "slug must be the pre-pipe portion");
}

#[test]
fn extract_link_lines_includes_code_fenced_links() {
    let body = "```\nfn x() { let _ = \"[[code-link]]\"; }\n```";
    let pairs = extract_link_lines(body);
    let slugs: Vec<&str> = pairs.iter().map(|(s, _)| s.as_str()).collect();
    assert!(slugs.contains(&"code-link"), "code-fenced link counts: {slugs:?}");
}

#[test]
fn snippet_for_centers_around_match() {
    let line =
        "Lorem ipsum dolor sit amet consectetur adipiscing elit, [[transformer]] is great today";
    let snip = snippet_for(line, "transformer");
    assert!(snip.contains("[[transformer]]"), "must contain match: {snip}");
    assert!(snip.len() < line.len() + 8, "should be trimmed: {snip}");
}

#[test]
fn snippet_for_empty_line_returns_empty_string() {
    assert!(snippet_for("", "foo").is_empty());
}

#[test]
fn slug_from_wiki_path_strips_ext_and_dirs() {
    assert_eq!(
        slug_from_wiki_path("architecture/transformer.md"),
        Some("transformer".to_string())
    );
    assert_eq!(slug_from_wiki_path("foo.md"), Some("foo".to_string()));
    assert_eq!(slug_from_wiki_path(""), None);
}

#[test]
fn sidecar_path_lives_under_backlinks_dir() {
    let p = sidecar_path("/tmp/v", "transformer");
    assert_eq!(p, format!("/tmp/v/{BACKLINKS_DIR}/transformer.json"));
}

#[test]
fn build_index_groups_sources_by_target() {
    let mut a = Page::new("A", &[], "see [[shared]] here");
    a.related = Some(vec!["ops/shared.md".to_string()]);
    let b = Page::new("B", &[], "also [[shared]]\nand [[other]]");
    let records = build_index(&[
        ("architecture/a.md".to_string(), a),
        ("tools/b.md".to_string(), b),
    ]);
    let shared = records.iter().find(|r| r.target == "shared").expect("shared record");
    assert_eq!(shared.sources.len(), 3);
    assert_eq!(shared.sources[0].path, "wiki/architecture/a.md");
    assert!(matches!(shared.sources[0].kind, BacklinkKind::Wikilink));
    assert!(shared
        .sources
        .iter()
        .any(|s| matches!(s.kind, BacklinkKind::Related) && s.context.is_none()));
    let other = records.iter().find(|r| r.target == "other").expect("other record");
    assert_eq!(other.sources.len(), 1);
    assert_eq!(other.sources[0].path, "wiki/tools/b.md");
}

fn make_page(title: &str, tags: &[&str], body: &str) -> Page {
    Page::new(title, tags, body)
}

fn record_for<'a>(records: &'a [BacklinkRecord], target: &str) -> Option<&'a BacklinkRecord> {
    records.iter().find(|r| r.target == target)
}

#[test]
fn build_index_picks_up_wikilinks_and_related() {
    let bar = make_page("Bar", &["tools"], "I am bar.");
    let foo = make_page("Foo", &["tools"], "Use [[bar]] for parsing.");
    let mut baz = make_page("Baz", &["tools"], "No body link here.");
    baz.related = Some(vec!["tools/bar.md".to_string()]);
    let pages = vec![
        ("tools/bar.md".to_string(), bar),
        ("tools/foo.md".to_string(), foo),
        ("tools/baz.md".to_string(), baz),
    ];
    let records = build_index(&pages);
    let sources = &record_for(&records, "bar").expect("bar must be indexed").sources;
    assert_eq!(sources.len(), 2, "two sources: wikilink + related: {sources:?}");
    let kinds: Vec<&BacklinkKind> = sources.iter().map(|s| &s.kind).collect();
    assert!(kinds.contains(&&BacklinkKind::Wikilink));
    assert!(kinds.contains(&&BacklinkKind::Related));
    let paths: Vec<&str> = sources.iter().map(|s| s.path.as_str()).collect();
    assert!(paths.contains(&"wiki/tools/foo.md"));
    assert!(paths.contains(&"wiki/tools/baz.md"));
}

#[test]
fn build_index_pipe_wikilinks_match_by_slug() {
    let pages = vec![
        ("tools/target.md".to_string(), make_page("Target", &["tools"], "target body")),
        ("tools/src.md".to_string(), make_page("Src", &["tools"], "Read [[target|the awesome target]] now")),
    ];
    let records = build_index(&pages);
    let sources = &record_for(&records, "target").expect("target must be indexed").sources;
    assert_eq!(sources.len(), 1);
    assert_eq!(sources[0].path, "wiki/tools/src.md");
}

#[test]
fn update_for_page_creates_sidecar_for_new_links() {
    let src = make_page("S", &["tools"], "See [[t]] here.");
    let sources = updated_sources(&Vec::new(), &source_path("tools/s.md"), "t", Some(&src));
    assert_eq!(sources.len(), 1);
    assert_eq!(sources[0].path, "wiki/tools/s.md");
}

#[test]
fn update_for_page_removes_dropped_links() {
    let v1 = make_page("S", &["tools"], "Use [[t]] often.");
    let src = source_path("tools/s.md");
    let after_v1 = updated_sources(&Vec::new(), &src, "t", Some(&v1));
    assert!(!after_v1.is_empty());
    let v2 = make_page("S", &["tools"], "All references removed.");
    let after_v2 = updated_sources(&after_v1, &src, "t", Some(&v2));
    assert!(after_v2.is_empty(), "the sidecar goes when its only source drops the link");
}

#[test]
fn update_for_page_preserves_other_sources() {
    let pages = vec![
        ("tools/t.md".to_string(), make_page("T", &["tools"], "t")),
        ("tools/a.md".to_string(), make_page("A", &["tools"], "From A: [[t]].")),
        ("tools/b.md".to_string(), make_page("B", &["tools"], "From B: [[t]] also.")),
    ];
    let records = build_index(&pages);
    let before: Vec<BacklinkSource> = record_for(&records, "t").unwrap().sources.clone();
    assert_eq!(before.len(), 2);
    let b_v2 = make_page("B", &["tools"], "B no longer references it.");
    let after = updated_sources(&before, &source_path("tools/b.md"), "t", Some(&b_v2));
    let paths: Vec<&str> = after.iter().map(|s| s.path.as_str()).collect();
    assert_eq!(paths, vec!["wiki/tools/a.md"], "only A remains: {paths:?}");
}

#[test]
fn sidecar_decisions() {
    let pages = vec![
        ("tools/t.md".to_string(), make_page("T", &["tools"], "t")),
        ("tools/a.md".to_string(), make_page("A", &["tools"], "From A: [[t]].")),
    ];
    let records = build_index(&pages);
    let rec = record_for(&records, "t").unwrap();
    assert!(lists_source(rec, "wiki/tools/a.md"));
    assert!(!lists_source(rec, "wiki/tools/b.md"));
    let gone = make_page("A", &["tools"], "no links");
    assert!(sidecar_update(&rec.sources, "wiki/tools/a.md", "t", Some(&gone)).is_none());
    let kept = sidecar_update(&rec.sources, "wiki/tools/b.md", "t", None).unwrap();
    assert_eq!(kept.target, "t");
    assert_eq!(kept.sources.len(), 1);
    let existing = vec!["t".to_string(), "old".to_string()];
    assert_eq!(stale_targets(&existing, &records), vec!["old".to_string()]);
}

#[test]
fn untouched_sidecar_keeps_its_sources() {
    let pages = vec![
        ("tools/t.md".to_string(), make_page("T", &["tools"], "t")),
        ("tools/a.md".to_string(), make_page("A", &["tools"], "From A: [[t]].")),
    ];
    let records = build_index(&pages);
    let before: Vec<BacklinkSource> = record_for(&records, "t").unwrap().sources.clone();
    let c = make_page("C", &["tools"], "C links to [[other]] only.");
    let after = updated_sources(&before, &source_path("tools/c.md"), "t", Some(&c));
    let key = |v: &Vec<BacklinkSource>| -> Vec<(String, BacklinkKind, Option<String>)> {
        v.iter().map(|s| (s.path.clone(), s.kind, s.context.clone())).collect()
    };
    assert_eq!(key(&after), key(&before));
    let removed = updated_sources(&before, &source_path("tools/c.md"), "t", None);
    assert_eq!(key(&removed), key(&before));
}
