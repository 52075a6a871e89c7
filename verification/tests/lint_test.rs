use lw_core::aliases::{build_index, AliasIndex};
use lw_core::journal::StaleJournalFinding;
use lw_core::link::CategoryFiles;
use lw_core::lint::{index_links, run_lint, LintPage, LintReport, UnlinkedMentionFinding};
use lw_core::page::Page;

fn lp(rel: &str, page: Page, related_exists: Vec<bool>, age: Option<i64>) -> LintPage {
    LintPage { rel_path: rel.to_string(), page: Some(page), related_exists, age_days: age }
}

fn listing(files: &[(&str, &[&str])]) -> Vec<CategoryFiles> {
    files
        .iter()
        .map(|(c, fs)| CategoryFiles {
            name: c.to_string(),
            files: fs.iter().map(|f| f.to_string()).collect(),
        })
        .collect()
}

/// The alias index of the readable pages, as the wiki would build it.
fn aliases_of(pages: &Vec<LintPage>) -> AliasIndex {
    let readable: Vec<(String, Page)> = pages
        .iter()
        .filter_map(|p| p.page.as_ref().map(|pg| (p.rel_path.clone(), pg.clone())))
        .collect();
    build_index(&readable)
}

fn lint(pages: &Vec<LintPage>, index: Option<&str>, cats: &Vec<CategoryFiles>, cat: Option<&str>) -> LintReport {
    run_lint(pages, index, cats, 90, &vec![], 7, cat, &aliases_of(pages))
}

#[test]
fn lint_empty_wiki_returns_clean_report() {
    let r = lint(&vec![], None, &vec![], None);
    assert!(!r.has_findings());
    assert_eq!(r.freshness.fresh, 0);
}

#[test]
fn lint_detects_todo_pages() {
    let pages = vec![lp("tools/a.md", Page::new("A", &[], "TODO: write"), vec![], None)];
    let r = lint(&pages, Some("[a](tools/a.md)"), &vec![], None);
    assert_eq!(r.todo_pages.len(), 1);
    assert_eq!(r.todo_pages[0].path, "tools/a.md");
    assert_eq!(r.todo_pages[0].detail, "Page body contains TODO:");
    assert!(r.orphan_pages.is_empty(), "index.md link keeps it from being an orphan");
    assert!(r.has_findings());
}

#[test]
fn lint_detects_broken_related_and_orphans() {
    let mut a = Page::new("A", &[], "body");
    a.related = Some(vec!["ops/gone.md".to_string(), "tools/b.md".to_string()]);
    let pages = vec![
        lp("tools/a.md", a, vec![false, true], None),
        lp("tools/b.md", Page::new("B", &[], "plain"), vec![], None),
        lp("_journal/2026-01-01.md", Page::new("J", &[], "x"), vec![], None),
        lp("index.md", Page::new("I", &[], "x"), vec![], None),
    ];
    let r = lint(&pages, None, &vec![], None);
    assert_eq!(r.broken_related.len(), 1);
    assert_eq!(r.broken_related[0].detail, "related entry not found: ops/gone.md");
    let orphans: Vec<&str> = r.orphan_pages.iter().map(|f| f.path.as_str()).collect();
    assert_eq!(orphans, vec!["tools/a.md"]);
}

#[test]
fn lint_body_wikilink_prevents_orphan() {
    let pages = vec![
        lp("tools/a.md", Page::new("A", &[], "see [[b]]"), vec![], None),
        lp("tools/b.md", Page::new("B", &[], "see [[a]]"), vec![], None),
    ];
    let cats = listing(&[("tools", &["a.md", "b.md"])]);
    let r = lint(&pages, None, &cats, None);
    assert!(r.orphan_pages.is_empty(), "{:?}", r.orphan_pages);
}

#[test]
fn lint_detects_missing_concepts() {
    let pages = vec![
        lp("tools/a.md", Page::new("A", &[], "[[ghost]] [[ghost]]"), vec![], None),
        lp("tools/b.md", Page::new("B", &[], "[[ghost]] [[real]]"), vec![], None),
        lp("ops/c.md", Page::new("C", &[], "[[ghost]] [[real]]"), vec![], None),
        lp("ops/d.md", Page::new("D", &[], "[[real]]"), vec![], None),
    ];
    let cats = listing(&[("ops", &[]), ("tools", &["real.md"])]);
    let r = lint(&pages, None, &cats, None);
    assert_eq!(r.missing_concepts.len(), 1);
    assert_eq!(r.missing_concepts[0].path, "concepts/ghost.md");
    assert_eq!(r.missing_concepts[0].detail, "Referenced by 3 pages but no concept page exists");
}

#[test]
fn lint_category_filter_only_checks_matching() {
    let pages = vec![
        lp("tools/a.md", Page::new("A", &[], "TODO: x"), vec![], None),
        lp("ops/b.md", Page::new("B", &[], "TODO: y"), vec![], None),
    ];
    let r = lint(&pages, None, &vec![], Some("ops"));
    assert_eq!(r.todo_pages.len(), 1);
    assert_eq!(r.todo_pages[0].path, "ops/b.md");
}

#[test]
fn lint_freshness_included() {
    let mut fast = Page::new("A", &[], "x");
    fast.decay = Some("fast".to_string());
    let pages = vec![
        lp("tools/a.md", fast, vec![], Some(45)),
        lp("tools/b.md", Page::new("B", &[], "x"), vec![], Some(80)),
        lp("tools/c.md", Page::new("C", &[], "x"), vec![], None),
    ];
    let r = lint(&pages, None, &vec![], None);
    assert_eq!((r.freshness.fresh, r.freshness.suspect, r.freshness.stale), (1, 1, 1));
    assert_eq!(r.freshness.stale_pages[0].detail, "stale (decay=fast, age=45d)");
}

#[test]
fn lint_reports_stale_journal_entries() {
    let journal = vec![StaleJournalFinding { path: "_journal/2026-01-01.md".to_string(), age_days: 30 }];
    let r = run_lint(&vec![], None, &vec![], 90, &journal, 7, None, &AliasIndex::new());
    assert_eq!(r.stale_journal_pages.len(), 1);
    assert_eq!(
        r.stale_journal_pages[0].detail,
        "stale capture (age=30d, threshold=7d) \u{2014} promote or archive"
    );
    let filtered = run_lint(&vec![], None, &vec![], 90, &journal, 7, Some("tools"), &AliasIndex::new());
    assert!(filtered.stale_journal_pages.is_empty());
}

#[test]
fn index_links_follow_the_markdown_link_rule() {
    assert_eq!(
        index_links("- [A](tools/a.md)\n- [B](x.txt) [C](ops/c.md)\n[bad](.md)"),
        vec!["tools/a.md", "ops/c.md"]
    );
}

#[test]
fn unlinked_mention_text_line() {
    let f = UnlinkedMentionFinding {
        rule: "unlinked-mentions".to_string(),
        path: "wiki/tools/comrak.md".to_string(),
        line: 12,
        term: "tantivy".to_string(),
        target: "tantivy".to_string(),
    };
    assert_eq!(f.to_text_line(), "wiki/tools/comrak.md:12 \u{2014} \"tantivy\" could link to [[tantivy]]");
}

// ─── A wiki given as pages: the facts the lint reads from disk ───

fn make_page(title: &str, tags: &[&str], decay: &str, body: &str) -> Page {
    let mut p = Page::new(title, tags, body);
    p.decay = Some(decay.to_string());
    p
}

/// Lint a wiki holding exactly these pages (paths under `wiki/`), with no
/// `index.md`, no git history and no journal findings.
fn lint_wiki(pages: &[(&str, Page)], cat: Option<&str>) -> LintReport {
    let rels: Vec<&str> = pages.iter().map(|(r, _)| *r).collect();
    let facts: Vec<LintPage> = pages
        .iter()
        .map(|(rel, p)| {
            let related_exists = match &p.related {
                Some(rs) => rs.iter().map(|r| rels.contains(&r.as_str())).collect(),
                None => Vec::new(),
            };
            lp(rel, p.clone(), related_exists, None)
        })
        .collect();
    let mut cats: Vec<CategoryFiles> = Vec::new();
    for rel in &rels {
        if let Some((dir, file)) = rel.split_once('/') {
            match cats.iter_mut().find(|c| c.name == dir) {
                Some(c) => c.files.push(file.to_string()),
                None => cats.push(CategoryFiles { name: dir.to_string(), files: vec![file.to_string()] }),
            }
        }
    }
    run_lint(&facts, None, &cats, 90, &vec![], 7, cat, &aliases_of(&facts))
}

#[test]
fn lint_detects_broken_related() {
    let mut page = make_page("Page With Broken Related", &["architecture"], "normal", "Some content.");
    page.related = Some(vec!["architecture/nonexistent.md".to_string()]);
    let report = lint_wiki(&[("architecture/page-a.md", page)], None);
    assert_eq!(report.broken_related.len(), 1);
    assert!(report.broken_related[0].detail.contains("nonexistent.md"));
}

#[test]
fn lint_valid_related_not_flagged() {
    let page_b = make_page("Page B", &["architecture"], "normal", "Content of B.");
    let mut page_a = make_page("Page A", &["architecture"], "normal", "Content of A.");
    page_a.related = Some(vec!["architecture/page-b.md".to_string()]);
    let report = lint_wiki(&[("architecture/page-a.md", page_a), ("architecture/page-b.md", page_b)], None);
    assert!(report.broken_related.is_empty());
}

#[test]
fn lint_detects_orphan_pages() {
    let page_a = make_page("Page A", &["architecture"], "normal", "Content A.");
    let page_b = make_page("Page B", &["architecture"], "normal", "Content B.");
    let report = lint_wiki(&[("architecture/page-a.md", page_a), ("architecture/page-b.md", page_b)], None);
    assert_eq!(report.orphan_pages.len(), 2, "both unreferenced pages should be orphans");
}

#[test]
fn lint_missing_concepts_not_flagged_when_target_exists_same_category() {
    let mut pages = vec![(
        "architecture/page-b.md".to_string(),
        make_page("Page B", &["architecture"], "normal", "Content of B."),
    )];
    for i in 1..=3 {
        pages.push((
            format!("architecture/ref-{i}.md"),
            make_page(&format!("Ref {i}"), &["architecture"], "normal", &format!("See [[page-b]] for details. Ref {i}.")),
        ));
    }
    let borrowed: Vec<(&str, Page)> = pages.iter().map(|(r, p)| (r.as_str(), p.clone())).collect();
    let report = lint_wiki(&borrowed, None);
    assert!(report.missing_concepts.is_empty(), "{:?}", report.missing_concepts);
}

#[test]
fn lint_missing_concepts_not_flagged_when_page_exists_in_other_category() {
    let mut pages = vec![(
        "ops/bdd-testing.md".to_string(),
        make_page("BDD Testing", &["ops"], "normal", "BDD testing guide.\n"),
    )];
    for i in 1..=3 {
        pages.push((
            format!("architecture/referrer-{i}.md"),
            make_page(
                &format!("Referrer {i}"),
                &["architecture"],
                "normal",
                &format!("We use [[bdd-testing]] extensively. Page {i}.\n"),
            ),
        ));
    }
    let borrowed: Vec<(&str, Page)> = pages.iter().map(|(r, p)| (r.as_str(), p.clone())).collect();
    let report = lint_wiki(&borrowed, None);
    assert!(report.missing_concepts.is_empty(), "{:?}", report.missing_concepts);
}

#[test]
fn lint_excludes_journal_pages_from_orphans() {
    let orphan = make_page("Orphan", &["tools"], "normal", "Body");
    let journal = make_page("Daily 2026-04-25", &["journal"], "normal", "Notes for today");
    let report = lint_wiki(&[("tools/orphan-page.md", orphan), ("_journal/2026-04-25.md", journal)], None);
    let orphan_paths: Vec<String> = report.orphan_pages.iter().map(|f| f.path.clone()).collect();
    assert!(orphan_paths.iter().any(|p| p.contains("orphan-page.md")), "{orphan_paths:?}");
    assert!(
        !orphan_paths.iter().any(|p| p.contains("2026-04-25.md") || p.starts_with("_journal/")),
        "{orphan_paths:?}"
    );
}

#[test]
fn lint_unlinked_mentions_fires_on_unlinked_term() {
    let tantivy = make_page("Tantivy", &["tools"], "normal", "Tantivy is a full-text search engine library.");
    let comrak = make_page(
        "Comrak",
        &["tools"],
        "normal",
        "Comrak is a CommonMark parser. We also use tantivy for search.",
    );
    let report = lint_wiki(&[("tools/tantivy.md", tantivy), ("tools/comrak.md", comrak)], None);
    assert_eq!(report.unlinked_mentions.len(), 1, "{:?}", report.unlinked_mentions);
    let f = &report.unlinked_mentions[0];
    assert!(f.path.contains("comrak.md"), "{:?}", f.path);
    assert_eq!(f.term, "tantivy");
    assert_eq!(f.target, "tantivy");
    assert_eq!(f.line, 1);
}

#[test]
fn lint_unlinked_mentions_silent_when_already_linked() {
    let tantivy = make_page("Tantivy", &["tools"], "normal", "Full-text search library.");
    let comrak = make_page(
        "Comrak",
        &["tools"],
        "normal",
        "Comrak is a CommonMark parser. We also use [[tantivy]] for search.",
    );
    let report = lint_wiki(&[("tools/tantivy.md", tantivy), ("tools/comrak.md", comrak)], None);
    assert!(report.unlinked_mentions.is_empty(), "{:?}", report.unlinked_mentions);
}

#[test]
fn lint_unlinked_mentions_json_shape() {
    let tantivy = make_page("Tantivy", &["tools"], "normal", "Full-text search library.");
    let comrak = make_page("Comrak", &["tools"], "normal", "We use tantivy for indexing.");
    let report = lint_wiki(&[("tools/tantivy.md", tantivy), ("tools/comrak.md", comrak)], None);
    assert_eq!(report.unlinked_mentions.len(), 1);
    let f = &report.unlinked_mentions[0];
    assert_eq!(f.rule, "unlinked-mentions");
    assert_eq!(f.path, "wiki/tools/comrak.md");
    assert_eq!(f.line, 1);
    assert_eq!(f.term, "tantivy");
    assert_eq!(f.target, "tantivy");
}

#[test]
fn lint_unlinked_mentions_text_format() {
    let tantivy = make_page("Tantivy", &["tools"], "normal", "Full-text search library.");
    let comrak = make_page("Comrak", &["tools"], "normal", "We use tantivy for indexing.");
    let report = lint_wiki(&[("tools/tantivy.md", tantivy), ("tools/comrak.md", comrak)], None);
    assert_eq!(report.unlinked_mentions.len(), 1);
    let text = report.unlinked_mentions[0].to_text_line();
    assert!(text.contains('\u{2014}'), "{text:?}");
    assert!(text.contains("\"tantivy\""), "{text:?}");
    assert!(text.contains("[[tantivy]]"), "{text:?}");
    assert!(text.contains(":1"), "{text:?}");
    assert!(text.starts_with("wiki/") || text.contains("comrak.md"), "{text:?}");
}

#[test]
fn lint_report_has_findings_when_unlinked_mentions_present() {
    let tantivy = make_page("Tantivy", &["tools"], "normal", "Full-text search library.");
    let comrak = make_page("Comrak", &["tools"], "normal", "We use tantivy for indexing.");
    let report = lint_wiki(&[("tools/tantivy.md", tantivy), ("tools/comrak.md", comrak)], None);
    assert!(report.has_findings(), "{report:?}");
    let clean = lint_wiki(&[], None);
    assert!(!clean.has_findings(), "{clean:?}");
}

#[test]
fn lint_unlinked_mentions_ambiguous_match_produces_one_finding_per_target() {
    let tantivy = make_page("Tantivy", &["tools"], "normal", "Full-text search library.");
    let mut meilisearch = make_page("Meilisearch", &["tools"], "normal", "Another search engine.");
    meilisearch.aliases = vec!["tantivy".to_string()];
    let page = make_page("Comrak", &["tools"], "normal", "We use tantivy for full-text search.");
    let report = lint_wiki(
        &[("tools/tantivy.md", tantivy), ("tools/meilisearch.md", meilisearch), ("tools/comrak.md", page)],
        None,
    );
    let findings: Vec<&UnlinkedMentionFinding> =
        report.unlinked_mentions.iter().filter(|f| f.path.contains("comrak.md")).collect();
    assert_eq!(findings.len(), 2, "{findings:?}");
    let targets: Vec<&str> = findings.iter().map(|f| f.target.as_str()).collect();
    assert!(targets.contains(&"tantivy"), "{targets:?}");
    assert!(targets.contains(&"meilisearch"), "{targets:?}");
}

#[test]
fn lint_unlinked_mentions_follow_the_category_filter() {
    let tantivy = make_page("Tantivy", &["tools"], "normal", "Full-text search library.");
    let ops = make_page("Runbook", &["ops"], "normal", "Restart tantivy nightly.");
    let all = lint_wiki(&[("tools/tantivy.md", tantivy.clone()), ("ops/runbook.md", ops.clone())], None);
    assert_eq!(all.unlinked_mentions.len(), 1);
    assert_eq!(all.unlinked_mentions[0].path, "wiki/ops/runbook.md");
    let tools_only = lint_wiki(&[("tools/tantivy.md", tantivy), ("ops/runbook.md", ops)], Some("tools"));
    assert!(tools_only.unlinked_mentions.is_empty());
}
