//! The decisions of the agent-facing tools: argument defaults and checks,
//! section edits of a page file, and what each tool reports.

use crate::fs::{category_from_path, category_of};
use crate::git::{opt_chars, opt_str, AutoCommitOpts, CommitAction};
use crate::ingest::{source_slug, slug_from_title_or_h1};
use crate::page::Page;
use crate::path::{path_strip_prefix, strip_prefix};
use crate::search::{SearchQuery, SearchSort};
use crate::section::{
    append_spec, apply_append, apply_upsert, find_section_chars, frontmatter_end, section_spec,
    split_frontmatter, upsert_spec,
};
use crate::status::CategoryStatus;
use crate::text::{chars_of, contains, owned, push_all, str_eq, string_of, trim, trim_chars, views};
use vstd::prelude::*;

verus! {

// ───────────────────────── auto-commit options ─────────────────────────

/// The auto-commit options of a write tool: commit unless told not to,
/// push only when asked.
pub fn commit_opts<'a>(
    commit: Option<bool>,
    push: Option<bool>,
    author: Option<&'a str>,
    source: Option<&'a str>,
    generator_version: &'a str,
) -> (r: AutoCommitOpts<'a>)
    ensures
        r.commit == match commit {
            Some(b) => b,
            None => true,
        },
        r.push == match push {
            Some(b) => b,
            None => false,
        },
        r.author == author,
        r.source == source,
        r.generator_version == generator_version,
{
    AutoCommitOpts {
        commit: match commit {
            Some(b) => b,
            None => true,
        },
        push: match push {
            Some(b) => b,
            None => false,
        },
        author,
        source,
        generator_version,
    }
}

/// A path shown relative to the wiki root when it lies under it.
pub fn display_path(wiki_root: &str, abs: &str) -> (r: String)
    ensures
        r@ == match strip_prefix(abs@, wiki_root@) {
            Some(p) => p,
            None => abs@,
        },
{
    match path_strip_prefix(abs, wiki_root) {
        Some(p) => p,
        None => owned(abs),
    }
}

// ───────────────────────── page writes ─────────────────────────

/// How a page write treats the page.
#[derive(Debug, Clone, Copy, PartialEq, Eq, Structural)]
pub enum WriteMode {
    /// Replace the whole page.
    Overwrite,
    /// Append to a named section.
    AppendSection,
    /// Replace or create a named section.
    UpsertSection,
}

/// Read a write mode; an unknown one is refused with a message naming it.
pub fn parse_write_mode(mode: &str) -> (r: Result<WriteMode, String>)
    ensures
        mode@ == "overwrite"@ ==> r == Ok::<WriteMode, String>(WriteMode::Overwrite),
        mode@ == "append_section"@ ==> r == Ok::<WriteMode, String>(WriteMode::AppendSection),
        mode@ == "upsert_section"@ ==> r == Ok::<WriteMode, String>(WriteMode::UpsertSection),
        mode@ != "overwrite"@ && mode@ != "append_section"@ && mode@ != "upsert_section"@ ==> (r matches Err(
            m,
        ) && m@ == "Unknown write mode: '"@ + mode@ + "'"@),
{
    proof {
        reveal_strlit("overwrite");
        reveal_strlit("append_section");
        reveal_strlit("upsert_section");
        assert("overwrite"@ != "append_section"@) by {
            assert("overwrite"@.len() != "append_section"@.len());
        }
        assert("overwrite"@ != "upsert_section"@) by {
            assert("overwrite"@.len() != "upsert_section"@.len());
        }
        assert("append_section"@ != "upsert_section"@) by {
            assert("append_section"@[0] != "upsert_section"@[0]);
        }
    }
    if str_eq(mode, "overwrite") {
        Ok(WriteMode::Overwrite)
    } else if str_eq(mode, "append_section") {
        Ok(WriteMode::AppendSection)
    } else if str_eq(mode, "upsert_section") {
        Ok(WriteMode::UpsertSection)
    } else {
        let mut m = chars_of("Unknown write mode: '");
        push_all(&mut m, chars_of(mode).as_slice());
        push_all(&mut m, chars_of("'").as_slice());
        Err(string_of(m.as_slice()))
    }
}

/// The commit action recorded for a write in this mode.
pub fn write_action(mode: WriteMode) -> (r: CommitAction)
    ensures
        r == match mode {
            WriteMode::Overwrite => CommitAction::Update,
            WriteMode::AppendSection => CommitAction::Append,
            WriteMode::UpsertSection => CommitAction::Upsert,
        },
{
    match mode {
        WriteMode::Overwrite => CommitAction::Update,
        WriteMode::AppendSection => CommitAction::Append,
        WriteMode::UpsertSection => CommitAction::Upsert,
    }
}

/// The section a section-mode write names; a missing or empty name is
/// refused.
pub fn required_section(mode: &str, section: Option<&str>) -> (r: Result<String, String>)
    ensures
        match section {
            Some(s) => s@.len() > 0,
            None => false,
        } ==> (r matches Ok(s) && Some(s@) == opt_str(section)),
        !match section {
            Some(s) => s@.len() > 0,
            None => false,
        } ==> (r matches Err(m) && m@ == "'section' is required for "@ + mode@ + " mode"@),
{
    match section {
        Some(s) => {
            if !s.is_empty() {
                return Ok(owned(s));
            }
        },
        None => {},
    }
    let mut m = chars_of("'section' is required for ");
    push_all(&mut m, chars_of(mode).as_slice());
    push_all(&mut m, chars_of(" mode").as_slice());
    Err(string_of(m.as_slice()))
}

/// The outcome of a section edit of a page file.
#[derive(Debug)]
pub enum SectionEdit {
    /// Appending empty content: nothing to write.
    Noop,
    /// The page's new text.
    Edited { text: String, section_found: bool, multiple_matches: bool },
}

/// The frontmatter block and body of a page text, as `split_frontmatter`
/// gives them.
pub open spec fn split_spec(raw: Seq<char>) -> (Seq<char>, Seq<char>) {
    match frontmatter_end(raw) {
        Some(e) => (raw.take(e), raw.skip(e)),
        None => (Seq::empty(), raw),
    }
}

/// Edit a section of a page file's text: the frontmatter block is kept as
/// it is, and the body gets the content appended to the section (`append`)
/// or the section's content replaced; a missing section is created.
pub fn edit_section(raw: &str, section: &str, content: &str, append: bool) -> (r: SectionEdit)
    ensures
        append && append_spec(split_spec(raw@).1, section@, content@) is None ==> r is Noop,
        append && append_spec(split_spec(raw@).1, section@, content@) is Some ==> (r matches SectionEdit::Edited { text, section_found, multiple_matches } && text@ == split_spec(
            raw@,
        ).0 + (append_spec(split_spec(raw@).1, section@, content@)->0).0 && section_found
            == (append_spec(split_spec(raw@).1, section@, content@)->0).1 && multiple_matches == (
        section_spec(split_spec(raw@).1, section@) matches Some(m) && m.multiple_matches)),
        !append ==> (r matches SectionEdit::Edited { text, section_found, multiple_matches } && text@
            == split_spec(raw@).0 + upsert_spec(split_spec(raw@).1, section@, content@).0
            && section_found == upsert_spec(split_spec(raw@).1, section@, content@).1
            && multiple_matches == (section_spec(split_spec(raw@).1, section@) matches Some(m)
            && m.multiple_matches)),
{
    let (fm, body) = split_frontmatter(raw);
    let multiple = match find_section_chars(body, section) {
        Some(m) => m.multiple_matches,
        None => false,
    };
    let (new_body, found) = if append {
        match apply_append(body, section, content) {
            Some(res) => res,
            None => {
                return SectionEdit::Noop;
            },
        }
    } else {
        apply_upsert(body, section, content)
    };
    let mut t = chars_of(fm);
    push_all(&mut t, chars_of(new_body.as_str()).as_slice());
    SectionEdit::Edited { text: string_of(t.as_slice()), section_found: found, multiple_matches: multiple }
}

/// The warning a section write reports: several headings matched, or the
/// section had to be created.
pub fn section_warning(section: &str, section_found: bool, multiple_matches: bool) -> (r: Option<
    String,
>)
    ensures
        multiple_matches ==> opt_chars(r) == Some(
            "Section '"@ + section@ + "' matched multiple headings; operated on first occurrence"@,
        ),
        !multiple_matches && !section_found ==> opt_chars(r) == Some(
            "Section '"@ + section@ + "' not found; created at end of page"@,
        ),
        !multiple_matches && section_found ==> r is None,
{
    if multiple_matches {
        let mut m = chars_of("Section '");
        push_all(&mut m, chars_of(section).as_slice());
        push_all(&mut m, chars_of("' matched multiple headings; operated on first occurrence").as_slice());
        Some(string_of(m.as_slice()))
    } else if !section_found {
        let mut m = chars_of("Section '");
        push_all(&mut m, chars_of(section).as_slice());
        push_all(&mut m, chars_of("' not found; created at end of page").as_slice());
        Some(string_of(m.as_slice()))
    } else {
        None
    }
}

// ───────────────────────── ingest ─────────────────────────

/// Where an ingest takes its material from.
#[derive(Debug)]
pub enum IngestInput {
    /// A file to copy.
    SourcePath(String),
    /// Text to file directly.
    Content(String),
}

/// Exactly one of a source path and pasted content must be given.
pub fn ingest_input(source_path: Option<&str>, content: Option<&str>) -> (r: Result<IngestInput, String>)
    ensures
        source_path is Some && content is Some ==> (r matches Err(m) && m@
            == "pass either `source_path` or `content`, not both \u{2014} they are mutually exclusive"@),
        source_path is None && content is None ==> (r matches Err(m) && m@
            == "pass either `source_path` (file/URL) or `content` (pasted markdown)"@),
        source_path is Some && content is None ==> (r matches Ok(IngestInput::SourcePath(s))
            && s@ == source_path->0@),
        source_path is None && content is Some ==> (r matches Ok(IngestInput::Content(s)) && s@
            == content->0@),
{
    match (source_path, content) {
        (Some(_), Some(_)) => Err(
            owned("pass either `source_path` or `content`, not both \u{2014} they are mutually exclusive"),
        ),
        (None, None) => Err(owned("pass either `source_path` (file/URL) or `content` (pasted markdown)")),
        (Some(p), None) => Ok(IngestInput::SourcePath(owned(p))),
        (None, Some(c)) => Ok(IngestInput::Content(owned(c))),
    }
}

/// The file name pasted content is filed under: an explicit name (trimmed,
/// which must be non-empty and hold no separator and not be `.` or `..`),
/// else the source slug with `.md`.
pub open spec fn content_filename(filename: Option<Seq<char>>, title: Option<Seq<char>>, content: Seq<char>) -> Result<
    Seq<char>,
    Seq<char>,
> {
    match filename {
        Some(f) => {
            let t = trim(f);
            if t.len() == 0 {
                Err("`filename` must not be empty"@)
            } else if t.contains('/') || t.contains('\\') || t == ".."@ || t == "."@ {
                Err("invalid filename `"@ + t + "`: must not contain path separators"@)
            } else {
                Ok(t)
            }
        },
        None => Ok(source_slug(title, content) + ".md"@),
    }
}

fn has_char(s: &[char], c: char) -> (r: bool)
    ensures
        r == s@.contains(c),
{
    let mut i: usize = 0;
    while i < s.len()
        invariant
            i <= s@.len(),
            forall|k: int| 0 <= k < i ==> s@[k] != c,
        decreases s@.len() - i,
    {
        if s[i] == c {
            return true;
        }
        i += 1;
    }
    false
}

/// Pick the file name for pasted content.
pub fn derive_content_filename(filename: Option<&str>, title: Option<&str>, content: &str) -> (r:
    Result<String, String>)
    ensures
        match r {
            Ok(s) => content_filename(opt_str(filename), opt_str(title), content@) == Ok::<
                Seq<char>,
                Seq<char>,
            >(s@),
            Err(m) => content_filename(opt_str(filename), opt_str(title), content@) == Err::<
                Seq<char>,
                Seq<char>,
            >(m@),
        },
{
    proof {
        reveal_strlit("..");
        reveal_strlit(".");
    }
    match filename {
        Some(f) => {
            let t = trim_chars(chars_of(f).as_slice());
            if t.len() == 0 {
                return Err(owned("`filename` must not be empty"));
            }
            let dotdot = t.len() == 2 && t[0] == '.' && t[1] == '.';
            let dot = t.len() == 1 && t[0] == '.';
            proof {
                if t@ == ".."@ {
                    assert(t@[0] == '.' && t@[1] == '.');
                }
                if dotdot {
                    assert(t@ =~= ".."@);
                }
                if t@ == "."@ {
                    assert(t@[0] == '.');
                }
                if dot {
                    assert(t@ =~= "."@);
                }
            }
            if has_char(t.as_slice(), '/') || has_char(t.as_slice(), '\\') || dotdot || dot {
                let mut m = chars_of("invalid filename `");
                push_all(&mut m, t.as_slice());
                push_all(&mut m, chars_of("`: must not contain path separators").as_slice());
                return Err(string_of(m.as_slice()));
            }
            Ok(string_of(t.as_slice()))
        },
        None => {
            let s = slug_from_title_or_h1(title, content);
            let mut v = chars_of(s.as_str());
            push_all(&mut v, chars_of(".md").as_slice());
            Ok(string_of(v.as_slice()))
        },
    }
}

// ───────────────────────── queries and listings ─────────────────────────

/// The tags of a comma-separated list, each trimmed (empty pieces kept).
pub open spec fn tag_list(tags: Option<Seq<char>>) -> Seq<Seq<char>> {
    match tags {
        Some(t) => split_commas(t).map_values(|p: Seq<char>| trim(p)),
        None => Seq::empty(),
    }
}

/// `str::split(',')`: the pieces between commas, empty ones included.
pub open spec fn split_commas(s: Seq<char>) -> Seq<Seq<char>>
    decreases s.len(),
{
    if s.len() == 0 {
        seq![Seq::empty()]
    } else {
        let rest = split_commas(s.drop_last());
        if s.last() == ',' {
            rest.push(Seq::empty())
        } else {
            rest.update(rest.len() - 1, rest.last().push(s.last()))
        }
    }
}

proof fn lemma_split_commas_nonempty(s: Seq<char>)
    ensures
        split_commas(s).len() >= 1,
    decreases s.len(),
{
    if s.len() > 0 {
        lemma_split_commas_nonempty(s.drop_last());
    }
}

fn split_tags(t: &str) -> (r: Vec<String>)
    ensures
        views(r@) == tag_list(Some(t@)),
{
    let cs = chars_of(t);
    let mut pieces: Vec<Vec<char>> = Vec::new();
    let mut cur: Vec<char> = Vec::new();
    let mut i: usize = 0;
    while i < cs.len()
        invariant
            i <= cs@.len(),
            cs@ == t@,
            pieces@.map_values(|p: Vec<char>| p@).push(cur@) == split_commas(cs@.take(i as int)),
        decreases cs@.len() - i,
    {
        proof {
            assert(cs@.take(i + 1).drop_last() == cs@.take(i as int));
            assert(cs@.take(i + 1).last() == cs@[i as int]);
            lemma_split_commas_nonempty(cs@.take(i as int));
        }
        let ghost before = pieces@.map_values(|p: Vec<char>| p@);
        let ghost cur0 = cur@;
        if cs[i] == ',' {
            let done = cur;
            pieces.push(done);
            cur = Vec::new();
            proof {
                assert(pieces@.map_values(|p: Vec<char>| p@) =~= before.push(cur0));
                assert(pieces@.map_values(|p: Vec<char>| p@).push(cur@) =~= before.push(cur0).push(
                    Seq::empty(),
                ));
            }
        } else {
            cur.push(cs[i]);
            proof {
                assert(pieces@.map_values(|p: Vec<char>| p@).push(cur@) =~= before.push(cur0).update(
                    before.len() as int,
                    cur0.push(cs@[i as int]),
                ));
            }
        }
        i += 1;
    }
    proof {
        assert(cs@.take(i as int) == cs@);
    }
    let ghost all = pieces@.map_values(|p: Vec<char>| p@).push(cur@);
    pieces.push(cur);
    proof {
        assert(pieces@.map_values(|p: Vec<char>| p@) =~= all);
    }
    let mut r: Vec<String> = Vec::new();
    let mut k: usize = 0;
    while k < pieces.len()
        invariant
            k <= pieces@.len(),
            all == pieces@.map_values(|p: Vec<char>| p@),
            all == split_commas(t@),
            views(r@) == all.take(k as int).map_values(|p: Seq<char>| trim(p)),
        decreases pieces@.len() - k,
    {
        let s = trim_chars(pieces[k].as_slice());
        let ghost before = r@;
        r.push(string_of(s.as_slice()));
        proof {
            assert(views(r@) =~= views(before).push(trim(all[k as int])));
            assert(all.take(k + 1).map_values(|p: Seq<char>| trim(p)) =~= all.take(k as int).map_values(
                |p: Seq<char>| trim(p),
            ).push(trim(all[k as int])));
        }
        k += 1;
    }
    proof {
        assert(all.take(k as int) == all);
    }
    r
}

/// The search a query tool runs: no text for an empty query, the
/// comma-separated tags (trimmed), the category, relevance order and at
/// most `limit` (20 by default) hits.
pub fn query_from_args(query: &str, tags: Option<&str>, category: Option<String>, limit: Option<usize>) -> (r:
    SearchQuery)
    ensures
        query@.len() == 0 ==> r.text is None,
        query@.len() > 0 ==> opt_chars(r.text) == Some(query@),
        views(r.tags@) == tag_list(opt_str(tags)),
        opt_chars(r.category) == opt_chars(category),
        r.status is None,
        r.author is None,
        r.sort == SearchSort::Relevance,
        r.limit == match limit {
            Some(l) => l,
            None => 20,
        },
{
    let tag_vec = match tags {
        Some(t) => split_tags(t),
        None => {
            let v: Vec<String> = Vec::new();
            proof {
                assert(views(v@) =~= Seq::<Seq<char>>::empty());
            }
            v
        },
    };
    SearchQuery {
        text: if query.is_empty() {
            None
        } else {
            Some(owned(query))
        },
        tags: tag_vec,
        category,
        status: None,
        author: None,
        sort: SearchSort::Relevance,
        limit: match limit {
            Some(l) => l,
            None => 20,
        },
    }
}

/// Whether a listing shows a page: inside the category filter (its first
/// directory, or the empty string at top level), carrying the tag filter,
/// and not fresh when only stale pages are asked for.
pub open spec fn browse_shows(
    rel: Seq<char>,
    tags: Seq<Seq<char>>,
    fresh: bool,
    category: Option<Seq<char>>,
    tag: Option<Seq<char>>,
    stale_only: bool,
) -> bool {
    &&& match category {
        Some(c) => (match category_of(rel) {
            Some(x) => x,
            None => Seq::empty(),
        }) == c,
        None => true,
    }
    &&& match tag {
        Some(t) => tags.contains(t),
        None => true,
    }
    &&& !(stale_only && fresh)
}

/// Decide whether a listing shows the page at `rel` (relative to `wiki/`).
pub fn browse_keep(
    rel: &str,
    page: &Page,
    fresh: bool,
    category: Option<&str>,
    tag: Option<&str>,
    stale_only: bool,
) -> (r: bool)
    ensures
        r == browse_shows(rel@, views(page.tags@), fresh, opt_str(category), opt_str(tag), stale_only),
{
    proof {
        reveal_strlit("");
    }
    let cat_ok = match category {
        Some(c) => {
            let cat = match category_from_path(rel) {
                Some(x) => x,
                None => owned(""),
            };
            assert(cat@ == match category_of(rel@) {
                Some(x) => x,
                None => Seq::<char>::empty(),
            });
            str_eq(cat.as_str(), c)
        },
        None => true,
    };
    let tag_ok = match tag {
        Some(t) => {
            let mut found = false;
            let mut i: usize = 0;
            while i < page.tags.len()
                invariant
                    i <= page.tags@.len(),
                    found == exists|k: int| 0 <= k < i && page.tags@[k]@ == t@,
                decreases page.tags@.len() - i,
            {
                if str_eq(page.tags[i].as_str(), t) {
                    found = true;
                }
                i += 1;
            }
            proof {
                if found {
                    let k = choose|k: int| 0 <= k < i && page.tags@[k]@ == t@;
                    assert(views(page.tags@)[k] == t@);
                }
                if views(page.tags@).contains(t@) {
                    let k = choose|k: int| 0 <= k < views(page.tags@).len() && views(page.tags@)[k] == t@;
                    assert(page.tags@[k]@ == t@);
                }
            }
            found
        },
        None => true,
    };
    cat_ok && tag_ok && !(stale_only && fresh)
}

/// The page count of the `_uncategorized` row, or 0.
pub open spec fn uncategorized_spec(cs: Seq<CategoryStatus>) -> nat
    decreases cs.len(),
{
    if cs.len() == 0 {
        0
    } else if cs[0].name@ == "_uncategorized"@ {
        cs[0].page_count as nat
    } else {
        uncategorized_spec(cs.drop_first())
    }
}

/// The number of pages outside any category, from the status rows.
pub fn uncategorized_count(cs: &Vec<CategoryStatus>) -> (r: usize)
    ensures
        r == uncategorized_spec(cs@),
{
    let mut i: usize = 0;
    proof {
        assert(cs@.skip(0) == cs@);
    }
    while i < cs.len()
        invariant
            i <= cs@.len(),
            uncategorized_spec(cs@) == uncategorized_spec(cs@.skip(i as int)),
        decreases cs@.len() - i,
    {
        proof {
            assert(cs@.skip(i as int)[0] == cs@[i as int]);
            assert(cs@.skip(i as int).drop_first() == cs@.skip(i + 1));
        }
        if str_eq(cs[i].name.as_str(), "_uncategorized") {
            return cs[i].page_count;
        }
        i += 1;
    }
    proof {
        assert(cs@.skip(i as int).len() == 0);
    }
    0
}

} // verus!
