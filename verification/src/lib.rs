//! Core library of a markdown knowledge base: pages with YAML frontmatter,
//! wiki links, backlinks, tag taxonomy, section editing, lint rules,
//! freshness and auto-commit policy.

pub mod aliases;
pub mod assoc;
pub mod backlinks;
pub mod error;
pub mod fs;
pub mod git;
pub mod import;
pub mod ingest;
pub mod journal;
pub mod laws;
pub mod link;
pub mod lint;
pub mod llm;
pub mod mentions;
pub mod order;
pub mod page;
pub mod path;
pub mod schema;
pub mod search;
pub mod section;
pub mod status;
pub mod tag;
pub mod text;
pub mod tools;

pub use crate::error::WikiError;
use vstd::prelude::*;

verus! {

/// Relative path (from wiki root) to the search index directory.
pub const INDEX_DIR: &'static str = ".lw/search";

} // verus!
