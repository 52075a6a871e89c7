//! Wiki pages: YAML frontmatter plus a markdown body, and title slugs.

use crate::error::WikiError;
use crate::text::{
    alphanumeric, chars_of, clone_opt, clone_opt_strings, clone_strings, is_alphanumeric, join,
    join_chars, lowercase, opt_view, owned, string_of, strings_of, to_lowercase, views, words,
    words_of, push_all, trim_start, trim_start_chars,
};
use vstd::prelude::*;

verus! {

/// The frontmatter fields of a page, as stored in its YAML block.
#[derive(Debug, Clone)]
pub struct Frontmatter {
    pub title: String,
    pub tags: Vec<String>,
    pub decay: Option<String>,
    pub sources: Vec<String>,
    pub author: Option<String>,
    pub generator: Option<String>,
    pub related: Option<Vec<String>>,
    pub status: Option<String>,
    pub aliases: Vec<String>,
}

/// A wiki page: frontmatter fields and the markdown body after it.
#[derive(Debug, Clone)]
pub struct Page {
    pub title: String,
    pub tags: Vec<String>,
    pub decay: Option<String>,
    pub sources: Vec<String>,
    pub author: Option<String>,
    pub generator: Option<String>,
    pub related: Option<Vec<String>>,
    pub status: Option<String>,
    pub aliases: Vec<String>,
    pub body: String,
}

/// The view of an optional list of strings.
pub open spec fn opt_views(o: Option<Vec<String>>) -> Option<Seq<Seq<char>>> {
    match o {
        Some(v) => Some(views(v@)),
        None => None,
    }
}

/// The frontmatter of `p` and `fm` carry the same values.
pub open spec fn same_fields(p: Page, fm: Frontmatter) -> bool {
    &&& p.title@ == fm.title@
    &&& views(p.tags@) == views(fm.tags@)
    &&& opt_view(p.decay) == opt_view(fm.decay)
    &&& views(p.sources@) == views(fm.sources@)
    &&& opt_view(p.author) == opt_view(fm.author)
    &&& opt_view(p.generator) == opt_view(fm.generator)
    &&& opt_views(p.related) == opt_views(fm.related)
    &&& opt_view(p.status) == opt_view(fm.status)
    &&& views(p.aliases@) == views(fm.aliases@)
}

fn clone_opt_list(o: &Option<Vec<String>>) -> (r: Option<Vec<String>>)
    ensures
        opt_views(r) == opt_views(*o),
{
    clone_opt_strings(o)
}

impl Page {
    /// A page with the given title, tags and body and no other metadata.
    pub fn new(title: &str, tags: &[&str], body: &str) -> (r: Self)
        ensures
            r.title@ == title@,
            views(r.tags@) == tags@.map_values(|s: &str| s@),
            r.decay is None,
            r.sources@.len() == 0,
            r.author is None,
            r.generator is None,
            r.related is None,
            r.status is None,
            r.aliases@.len() == 0,
            r.body@ == body@,
    {
        Page {
            title: owned(title),
            tags: strings_of(tags),
            decay: None,
            sources: Vec::new(),
            author: None,
            generator: None,
            related: None,
            status: None,
            aliases: Vec::new(),
            body: owned(body),
        }
    }

    /// The frontmatter that describes this page.
    pub fn frontmatter(&self) -> (r: Frontmatter)
        ensures
            same_fields(*self, r),
    {
        Frontmatter {
            title: self.title.clone(),
            tags: clone_strings(&self.tags),
            decay: clone_opt(&self.decay),
            sources: clone_strings(&self.sources),
            author: clone_opt(&self.author),
            generator: clone_opt(&self.generator),
            related: clone_opt_list(&self.related),
            status: clone_opt(&self.status),
            aliases: clone_strings(&self.aliases),
        }
    }

    /// A page from decoded frontmatter and the body that follows it.
    /// A page needs a non-empty title.
    pub fn from_frontmatter(fm: Frontmatter, body: String) -> (r: Result<Self, WikiError>)
        ensures
            fm.title@.len() == 0 <==> r is Err,
            r matches Err(e) ==> e == WikiError::YamlParse(e->YamlParse_0) && e->YamlParse_0@
                == "title is required"@,
            r matches Ok(p) ==> same_fields(p, fm) && p.body@ == body@,
    {
        if fm.title.as_str().is_empty() {
            return Err(WikiError::YamlParse(owned("title is required")));
        }
        Ok(Page {
            title: fm.title,
            tags: fm.tags,
            decay: fm.decay,
            sources: fm.sources,
            author: fm.author,
            generator: fm.generator,
            related: fm.related,
            status: fm.status,
            aliases: fm.aliases,
            body,
        })
    }
}

// ───────────────────────── frontmatter block ─────────────────────────

/// What `gray_matter::Matter::<YAML>::parse` yields for a markdown text:
/// `Some((matter, content))` when it succeeds, `None` when it reports an
/// error (its YAML engine could not load the block).
pub uninterp spec fn gray_matter_parse(input: Seq<char>) -> Option<(Seq<char>, Seq<char>)>;

/// `Matter::<YAML>::new().parse(input)` of the `gray_matter` crate, with
/// the result's `matter` (the trimmed YAML block, empty when the text has
/// none) and `content` (the text after the block) taken out, and its error
/// turned into its message. The contract names the outcome.
#[verifier::external_body]
fn gray_matter_split(input: &str) -> (r: Result<(String, String), String>)
    ensures
        r is Ok <==> gray_matter_parse(input@) is Some,
        r matches Ok((m, c)) ==> gray_matter_parse(input@) == Some((m@, c@)),
{
    let matter = gray_matter::Matter::<gray_matter::engine::YAML>::new();
    match matter.parse::<gray_matter::Pod>(input) {
        Ok(parsed) => Ok((parsed.matter, parsed.content)),
        Err(e) => Err(e.to_string()),
    }
}

/// Separate the YAML frontmatter block of `markdown` from its body.
/// Returns `(yaml, body)`; a text without a (non-empty) block is an error.
pub fn split_page(markdown: &str) -> (r: Result<(String, String), WikiError>)
    ensures
        r matches Ok((y, b)) ==> gray_matter_parse(markdown@) == Some((y@, b@)) && y@.len() > 0,
        r is Ok <==> (gray_matter_parse(markdown@) matches Some((y, b)) && y.len() > 0),
        r matches Err(e) ==> e is YamlParse,
        (gray_matter_parse(markdown@) matches Some((y, b)) && y.len() == 0) ==> r == Err::<
            (String, String),
            WikiError,
        >(WikiError::YamlParse(r->Err_0->YamlParse_0)) && r->Err_0->YamlParse_0@
            == "no frontmatter found"@,
{
    match gray_matter_split(markdown) {
        Err(msg) => Err(WikiError::YamlParse(msg)),
        Ok((yaml, content)) => {
            if yaml.as_str().is_empty() {
                Err(WikiError::YamlParse(owned("no frontmatter found")))
            } else {
                Ok((yaml, content))
            }
        },
    }
}

// ───────────────────────── slugs ─────────────────────────

/// How `slugify` maps one (already lowercased) character: letters, digits
/// and characters above U+2E7F (CJK and beyond) stay, the rest become '-'.
pub open spec fn slug_char(c: char) -> char {
    if alphanumeric(c) || c > '\u{2E7F}' {
        c
    } else {
        '-'
    }
}

/// The slug of a title: lowercase it, map each character by `slug_char`,
/// and keep the non-empty runs between dashes joined by single dashes.
pub open spec fn slug_of(title: Seq<char>) -> Seq<char> {
    join(words(lowercase(title).map_values(|c: char| slug_char(c)), '-'), seq!['-'])
}

/// Map each character by `slug_char`.
fn slug_chars(s: &[char]) -> (r: Vec<char>)
    ensures
        r@ == s@.map_values(|c: char| slug_char(c)),
{
    let mut r: Vec<char> = Vec::new();
    let mut i: usize = 0;
    while i < s.len()
        invariant
            i <= s@.len(),
            r@ == s@.take(i as int).map_values(|c: char| slug_char(c)),
        decreases s@.len() - i,
    {
        let c = s[i];
        if is_alphanumeric(c) || c > '\u{2E7F}' {
            r.push(c);
        } else {
            r.push('-');
        }
        i += 1;
        assert(s@.take(i as int).map_values(|c: char| slug_char(c)) =~= s@.take(
            (i - 1) as int,
        ).map_values(|c: char| slug_char(c)).push(slug_char(c)));
    }
    assert(s@.take(i as int) == s@);
    r
}

/// Convert a title to a URL-safe slug. Letters, digits and CJK characters
/// are kept (lowercased); every other run of characters becomes a single
/// hyphen, and there are no leading or trailing hyphens.
pub fn slugify(title: &str) -> (r: String)
    ensures
        r@ == slug_of(title@),
{
    let lower = to_lowercase(title);
    let lc = chars_of(lower.as_str());
    let mapped = slug_chars(lc.as_slice());
    let ws = words_of(mapped.as_slice(), '-');
    let dash = vec!['-'];
    let joined = join_chars(&ws, dash.as_slice());
    proof {
        assert(dash@ == seq!['-']);
    }
    string_of(joined.as_slice())
}

/// A page file's text from its serialized frontmatter and its body: the
/// YAML between `---` lines, a blank line, then the body without its
/// leading whitespace.
pub fn frame_page(yaml: &str, body: &str) -> (r: String)
    ensures
        r@ == "---\n"@ + yaml@ + "---\n\n"@ + trim_start(body@),
{
    let mut t = chars_of("---\n");
    push_all(&mut t, chars_of(yaml).as_slice());
    push_all(&mut t, chars_of("---\n\n").as_slice());
    let b = chars_of(body);
    push_all(&mut t, trim_start_chars(b.as_slice()).as_slice());
    string_of(t.as_slice())
}

} // verus!
