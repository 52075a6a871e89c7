# lw-core

The core of a markdown knowledge base ("LLM Wiki"): pages with YAML
frontmatter under `wiki/`, wiki links and backlinks, a tag taxonomy, a
title/alias index with unlinked-mention detection, section-level edits,
lint rules, page freshness, a quick-capture journal, and the auto-commit
policy that records every write in git.

## Layout

- `src/` — the library, verified with Verus. Every public function states
  its result in `ensures` over spec functions and views; `src/laws.rs`
  holds the properties that relate several operations (a backlink update
  equals a rebuild, an alias re-index replaces exactly one page, a capture
  only appends, every unlinked mention names an indexed page, …).
  Calls into other crates (`comrak` for the document's top-level nodes,
  `gray_matter` for frontmatter splitting, `unicode-normalization` for
  NFC, a few `std` string functions) sit behind small wrappers whose
  contracts name their results.
- `app/` — plain Rust around the library: reading and writing files, the
  sidecar indexes under `.lw/`, `git`, the `tantivy` search engine, YAML and
  TOML documents through `serde`, and the agent-protocol server (`rmcp`)
  that exposes the wiki's tools over stdio. Most decisions these make
  (which filters a search applies, what a sidecar update writes or
  removes, how a page file is framed, what each tool answers) are the
  library's; what stays in `app/` is walking directories, reading and
  writing files, running `git` and driving the engines.
- `tests/` — tests of the library on concrete values.
