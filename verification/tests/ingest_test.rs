use lw_core::ingest::{ensure_single_component, extract_h1, slug_from_title_or_h1};
use lw_core::WikiError;

#[test]
fn single_component_rules() {
    assert!(ensure_single_component("filename", "paper.pdf").is_ok());
    assert_eq!(
        ensure_single_component("filename", ""),
        Err(WikiError::Io("filename must not be empty".to_string()))
    );
    for bad in ["a/b", "..", ".", "/abs"] {
        assert_eq!(
            ensure_single_component("raw_subdir", bad),
            Err(WikiError::Io(format!(
                "invalid raw_subdir: `{bad}` must be a single path component"
            )))
        );
    }
}

#[test]
fn extract_h1_finds_first_heading() {
    assert_eq!(extract_h1("intro\n  # Title Here  \n# Second"), Some("Title Here".to_string()));
    assert_eq!(extract_h1("## not h1\n#   \n"), None);
}

#[test]
fn slug_prefers_title_then_heading() {
    assert_eq!(slug_from_title_or_h1(Some("  My Note "), "# Other"), "my-note");
    assert_eq!(slug_from_title_or_h1(Some("   "), "# From Heading"), "from-heading");
    assert_eq!(slug_from_title_or_h1(None, "no heading"), "untitled");
    assert_eq!(slug_from_title_or_h1(Some("!!!"), "# ???"), "untitled");
}
