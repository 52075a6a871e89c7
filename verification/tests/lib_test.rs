use lw_core::INDEX_DIR;

#[test]
fn index_dir_is_under_lw() {
    assert!(
        INDEX_DIR.starts_with(".lw/"),
        "INDEX_DIR must live under the .lw metadata directory"
    );
}

#[test]
fn index_dir_is_search() {
    assert_eq!(
        INDEX_DIR, ".lw/search",
        "canonical index path must be .lw/search"
    );
}
