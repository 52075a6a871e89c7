use lw_core::link::{extract_wiki_links, find_broken_links, resolve_link, CategoryFiles};

#[test]
fn extract_links_from_body() {
    let body = "See [[transformer]] for details. Also related: [[scaling-laws]] and [[attention-mechanism]].";
    let links = extract_wiki_links(body);
    assert_eq!(links, vec!["transformer", "scaling-laws", "attention-mechanism"]);
}

#[test]
fn extract_no_links() {
    assert!(extract_wiki_links("No links here.").is_empty());
}

#[test]
fn extract_deduplicates() {
    let body = "See [[foo]] and then [[foo]] again.";
    assert_eq!(extract_wiki_links(body), vec!["foo"]);
}

fn listing() -> Vec<CategoryFiles> {
    vec![
        CategoryFiles { name: "architecture".to_string(), files: vec!["transformer.md".to_string()] },
        CategoryFiles { name: "tools".to_string(), files: vec![] },
    ]
}

#[test]
fn resolve_link_finds_file() {
    assert_eq!(
        resolve_link("transformer", &listing()),
        Some("architecture/transformer.md".to_string())
    );
}

#[test]
fn resolve_link_returns_none_for_missing() {
    assert!(resolve_link("nonexistent", &listing()).is_none());
}

#[test]
fn extract_pipe_syntax_takes_slug_only() {
    let body = "See [[slug|display text]] for details.";
    let links = extract_wiki_links(body);
    assert_eq!(links, vec!["slug"]);
}

#[test]
fn extract_plain_and_pipe_mixed() {
    let body = "Compare [[transformer]] with [[attention|Attention Mechanism]] and [[scaling-laws|Scaling Laws]].";
    let links = extract_wiki_links(body);
    assert_eq!(links, vec!["transformer", "attention", "scaling-laws"]);
}

#[test]
fn extract_pipe_syntax_regression_plain_still_works() {
    let body = "See [[simple-slug]] and [[another-one]].";
    let links = extract_wiki_links(body);
    assert_eq!(links, vec!["simple-slug", "another-one"]);
}

#[test]
fn find_broken_links_detects_missing() {
    let body = "See [[transformer]] and [[nonexistent]].";
    let broken = find_broken_links(body, &listing());
    assert_eq!(broken, vec!["nonexistent"]);
}

#[test]
fn link_lines_match_links_when_links_stay_on_one_line() {
    let body = "See [[a]] and [[b|B]].\nAgain [[a]], then [[c]]\r\nend";
    let mut from_lines: Vec<String> = Vec::new();
    for (slug, _) in lw_core::backlinks::extract_link_lines(body) {
        if !from_lines.contains(&slug) {
            from_lines.push(slug);
        }
    }
    assert_eq!(from_lines, lw_core::link::extract_wiki_links(body));
    assert_eq!(from_lines, vec!["a".to_string(), "b".to_string(), "c".to_string()]);
}
