//! Errors of the wiki library. Paths and messages are carried as strings.

use vstd::prelude::*;

verus! {

/// Everything that can go wrong in a wiki operation.
#[derive(Debug, Clone, PartialEq, Eq)]
pub enum WikiError {
    Io(String),
    Tantivy(String),
    OpenDirectory(String),
    TomlParse(String),
    YamlParse(String),
    JsonParse(String),
    Frontmatter { path: String, reason: String },
    PageNotFound(String),
    NotAWiki(String),
    Git(String),
    PathTraversal(String),
    Internal(String),
    IndexLocked { path: String },
    PageAlreadyExists { path: String },
    UnknownCategory { name: String, valid: String },
    MissingRequiredField { category: String, field: String },
    InvalidSlug { slug: String },
    LlmUnavailable,
}

} // verus!
