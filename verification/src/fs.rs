//! Wiki layout rules: the category of a page path, valid slugs, where a
//! new page goes and what it holds, and keeping paths inside `wiki/`.

use crate::assoc::{find_key, key_pos};
use crate::error::WikiError;
use crate::git::opt_chars;
use crate::page::Page;
use crate::path::{
    comp_view, components, components_of, join_path, path_join,
    Comp, Component,
};
use crate::schema::WikiSchema;
use crate::text::{
    chars_of, join, join_strings, opt_view, owned, slice_chars, str_eq, string_of, views,
};
use vstd::prelude::*;

verus! {

// ───────────────────────── categories ─────────────────────────

/// The text of a component, as `Component::as_os_str` gives it.
pub open spec fn comp_text(c: Comp) -> Seq<char> {
    match c {
        Comp::RootDir => "/"@,
        Comp::CurDir => "."@,
        Comp::ParentDir => ".."@,
        Comp::Normal(n) => n,
    }
}

/// The category of a wiki-relative path: its first component, when at
/// least one more component (the file) follows.
pub open spec fn category_of(p: Seq<char>) -> Option<Seq<char>> {
    let c = components(p);
    if c.len() >= 2 {
        Some(comp_text(c[0]))
    } else {
        None
    }
}

fn comp_text_of(c: &Component) -> (r: Vec<char>)
    ensures
        r@ == comp_text(comp_view(*c)),
{
    match c {
        Component::RootDir => chars_of("/"),
        Component::CurDir => chars_of("."),
        Component::ParentDir => chars_of(".."),
        Component::Normal(v) => {
            proof {
                assert(v@.subrange(0, v@.len() as int) == v@);
            }
            slice_chars(v.as_slice(), 0, v.len())
        },
    }
}

/// The category of a wiki-relative path, e.g. `architecture` for
/// `architecture/transformer.md`; a bare file name has none.
pub fn category_from_path(rel_path: &str) -> (r: Option<String>)
    ensures
        opt_chars(r) == category_of(rel_path@),
{
    let cs = chars_of(rel_path);
    let comps = components_of(cs.as_slice());
    let ghost cv = comps@.map_values(|c: Component| comp_view(c));
    if comps.len() < 2 {
        return None;
    }
    let t = comp_text_of(&comps[0]);
    proof {
        assert(cv[0] == comp_view(comps@[0]));
    }
    Some(string_of(t.as_slice()))
}

// ───────────────────────── slugs ─────────────────────────

/// A character allowed in a page slug: `[a-z0-9_-]`.
pub open spec fn slug_char_ok(c: char) -> bool {
    ('a' <= c && c <= 'z') || ('0' <= c && c <= '9') || c == '_' || c == '-'
}

/// A slug a new page may take: non-empty, not starting with `.`, and made
/// of `[a-z0-9_-]` only.
pub open spec fn valid_slug(s: Seq<char>) -> bool {
    &&& s.len() > 0
    &&& s[0] != '.'
    &&& forall|i: int| 0 <= i < s.len() ==> slug_char_ok(#[trigger] s[i])
}

/// `s` is an `InvalidSlug` error naming `slug`.
pub open spec fn is_invalid_slug(e: WikiError, slug: Seq<char>) -> bool {
    e matches WikiError::InvalidSlug { slug: s } && s@ == slug
}

/// Check that `slug` matches `[a-z0-9_-]+` (so it holds no separator and
/// does not start with a dot).
pub fn validate_slug(slug: &str) -> (r: Result<(), WikiError>)
    ensures
        r is Ok <==> valid_slug(slug@),
        r matches Err(e) ==> is_invalid_slug(e, slug@),
{
    let cs = chars_of(slug);
    if cs.len() == 0 || cs[0] == '.' {
        return Err(WikiError::InvalidSlug { slug: owned(slug) });
    }
    let mut i: usize = 0;
    while i < cs.len()
        invariant
            i <= cs@.len(),
            cs@ == slug@,
            forall|k: int| 0 <= k < i ==> slug_char_ok(#[trigger] cs@[k]),
        decreases cs@.len() - i,
    {
        let c = cs[i];
        let ok = ('a' <= c && c <= 'z') || ('0' <= c && c <= '9') || c == '_' || c == '-';
        if !ok {
            return Err(WikiError::InvalidSlug { slug: owned(slug) });
        }
        i += 1;
    }
    Ok(())
}

// ───────────────────────── new pages ─────────────────────────

/// What a caller asks of a new page.
pub struct NewPageRequest<'a> {
    pub category: &'a str,
    pub slug: &'a str,
    pub title: String,
    pub tags: Vec<String>,
    pub author: Option<String>,
}

/// Whether a request meets one required field: `title` and `tags` must be
/// non-empty, `author` present; any other field cannot be met.
pub open spec fn field_met(f: Seq<char>, has_title: bool, has_tags: bool, has_author: bool) -> bool {
    if f == "title"@ {
        has_title
    } else if f == "tags"@ {
        has_tags
    } else if f == "author"@ {
        has_author
    } else {
        false
    }
}

/// The first of `fields` that is not met.
pub open spec fn first_unmet(
    fields: Seq<Seq<char>>,
    has_title: bool,
    has_tags: bool,
    has_author: bool,
) -> Option<Seq<char>>
    decreases fields.len(),
{
    if fields.len() == 0 {
        None
    } else if field_met(fields[0], has_title, has_tags, has_author) {
        first_unmet(fields.drop_first(), has_title, has_tags, has_author)
    } else {
        Some(fields[0])
    }
}

/// A category a new page may go in: one the schema lists, or
/// `_uncategorized`.
pub open spec fn category_known(schema: WikiSchema, c: Seq<char>) -> bool {
    c == "_uncategorized"@ || views(schema.tags.categories@).contains(c)
}

/// The body template and required fields the schema gives a category
/// (none when it has no block for it).
pub open spec fn category_rules(schema: WikiSchema, c: Seq<char>) -> (Seq<char>, Seq<Seq<char>>) {
    let p = key_pos(schema.categories@, c);
    if p < schema.categories@.len() {
        (schema.categories@[p].1.template@, views(schema.categories@[p].1.required_fields@))
    } else {
        (Seq::empty(), Seq::empty())
    }
}

/// Where a new page goes: `<root>/wiki/<category>/<slug>.md`.
pub open spec fn page_target(root: Seq<char>, category: Seq<char>, slug: Seq<char>) -> Seq<char> {
    path_join(path_join(path_join(root, "wiki"@), category), slug + ".md"@)
}

/// The first required field of the request's category that it leaves unmet.
pub open spec fn request_unmet(schema: WikiSchema, req: NewPageRequest) -> Option<Seq<char>> {
    first_unmet(
        category_rules(schema, req.category@).1,
        req.title@.len() > 0,
        req.tags@.len() > 0,
        req.author is Some,
    )
}

fn list_contains(v: &Vec<String>, s: &str) -> (r: bool)
    ensures
        r == views(v@).contains(s@),
{
    let mut i: usize = 0;
    while i < v.len()
        invariant
            i <= v@.len(),
            forall|k: int| 0 <= k < i ==> v@[k]@ != s@,
        decreases v@.len() - i,
    {
        if str_eq(v[i].as_str(), s) {
            assert(views(v@)[i as int] == s@);
            return true;
        }
        i += 1;
    }
    proof {
        if views(v@).contains(s@) {
            let k = choose|k: int| 0 <= k < views(v@).len() && views(v@)[k] == s@;
            assert(v@[k]@ == s@);
        }
    }
    false
}

fn first_unmet_field(fields: &Vec<String>, has_title: bool, has_tags: bool, has_author: bool) -> (r:
    Option<usize>)
    ensures
        match r {
            Some(i) => i < fields@.len() && first_unmet(
                views(fields@),
                has_title,
                has_tags,
                has_author,
            ) == Some(fields@[i as int]@),
            None => first_unmet(views(fields@), has_title, has_tags, has_author) is None,
        },
{
    let ghost fv = views(fields@);
    let mut i: usize = 0;
    proof {
        reveal_strlit("title");
        reveal_strlit("tags");
        reveal_strlit("author");
        assert(fv.skip(0) == fv);
    }
    while i < fields.len()
        invariant
            i <= fields@.len(),
            fv == views(fields@),
            first_unmet(fv, has_title, has_tags, has_author) == first_unmet(
                fv.skip(i as int),
                has_title,
                has_tags,
                has_author,
            ),
        decreases fields@.len() - i,
    {
        let f = fields[i].as_str();
        let met = if str_eq(f, "title") {
            has_title
        } else if str_eq(f, "tags") {
            has_tags
        } else if str_eq(f, "author") {
            has_author
        } else {
            false
        };
        proof {
            assert(fv.skip(i as int)[0] == f@);
            assert(fv.skip(i as int).drop_first() == fv.skip(i + 1));
        }
        if !met {
            return Some(i);
        }
        i += 1;
    }
    proof {
        assert(fv.skip(i as int).len() == 0);
    }
    None
}

/// Plan a new page: check the slug, the category and the category's
/// required fields, and give the path it goes to with the page to write
/// there (the category's template as body). Whether a file is already at
/// that path is for the caller to check, with `page_exists_error`.
pub fn new_page(wiki_root: &str, schema: &WikiSchema, req: NewPageRequest<'_>) -> (r: Result<
    (String, Page),
    WikiError,
>)
    ensures
        !valid_slug(req.slug@) ==> (r matches Err(e) && is_invalid_slug(e, req.slug@)),
        valid_slug(req.slug@) && !category_known(*schema, req.category@) ==> (r matches Err(
            WikiError::UnknownCategory { name, valid },
        ) && name@ == req.category@ && valid@ == join(views(schema.tags.categories@), ", "@)),
        valid_slug(req.slug@) && category_known(*schema, req.category@) && request_unmet(
            *schema,
            req,
        ) is Some ==> (r matches Err(WikiError::MissingRequiredField { category, field })
            && category@ == req.category@ && Some(field@) == request_unmet(*schema, req)),
        valid_slug(req.slug@) && category_known(*schema, req.category@) && request_unmet(
            *schema,
            req,
        ) is None ==> (r matches Ok((target, page)) && target@ == page_target(
            wiki_root@,
            req.category@,
            req.slug@,
        ) && page.title@ == req.title@ && views(page.tags@) == views(req.tags@)
            && page.decay is None && page.sources@.len() == 0 && opt_view(page.author)
            == opt_view(req.author) && page.generator is None && page.related is None
            && page.status is None && page.aliases@.len() == 0 && page.body@ == category_rules(
            *schema,
            req.category@,
        ).0),
{
    match validate_slug(req.slug) {
        Err(e) => {
            return Err(e);
        },
        Ok(()) => {},
    }
    let category = req.category;
    proof {
        reveal_strlit("_uncategorized");
    }
    if !str_eq(category, "_uncategorized") && !list_contains(&schema.tags.categories, category) {
        let valid = join_strings(&schema.tags.categories, ", ");
        return Err(WikiError::UnknownCategory { name: owned(category), valid });
    }
    let template: String;
    let fields: Vec<String>;
    match find_key(&schema.categories, category) {
        Some(i) => {
            template = owned(schema.categories[i].1.template.as_str());
            fields = crate::text::clone_strings(&schema.categories[i].1.required_fields);
        },
        None => {
            template = owned("");
            fields = Vec::new();
            proof {
                reveal_strlit("");
                assert(views(fields@) =~= Seq::<Seq<char>>::empty());
            }
        },
    }
    proof {
        assert(views(fields@) == category_rules(*schema, category@).1);
        assert(template@ == category_rules(*schema, category@).0);
    }
    if let Some(i) = first_unmet_field(
        &fields,
        !req.title.as_str().is_empty(),
        req.tags.len() > 0,
        req.author.is_some(),
    ) {
        return Err(
            WikiError::MissingRequiredField {
                category: owned(category),
                field: owned(fields[i].as_str()),
            },
        );
    }
    let w = join_path(wiki_root, "wiki");
    let c = join_path(w.as_str(), category);
    let mut file = chars_of(req.slug);
    let ext = chars_of(".md");
    crate::text::push_all(&mut file, ext.as_slice());
    let f = string_of(file.as_slice());
    let target = join_path(c.as_str(), f.as_str());
    let page = Page {
        title: req.title,
        tags: req.tags,
        decay: None,
        sources: Vec::new(),
        author: req.author,
        generator: None,
        related: None,
        status: None,
        aliases: Vec::new(),
        body: template,
    };
    Ok((target, page))
}

/// The error for a new page whose file already exists at `target`: it
/// names that path as given.
pub fn page_exists_error(target: &str) -> (r: WikiError)
    ensures
        r matches WikiError::PageAlreadyExists { path } && path@ == target@,
{
    WikiError::PageAlreadyExists { path: owned(target) }
}

// ───────────────────────── confinement ─────────────────────────

/// `e` is a `PathTraversal` error with message `msg`.
pub open spec fn is_traversal(e: WikiError, msg: Seq<char>) -> bool {
    e matches WikiError::PathTraversal(m) && m@ == msg
}

/// The checks on a page path given relative to `wiki/` that need no disk:
/// an absolute path or one with a `..` component is refused; otherwise the
/// path under `<root>/wiki` is returned. (Symlinks are the caller's to
/// resolve before `inside_wiki_dir`.)
pub fn validate_wiki_path(wiki_root: &str, relative_path: &str) -> (r: Result<String, WikiError>)
    ensures
        relative_path@.len() > 0 && relative_path@[0] == '/' ==> (r matches Err(e) && is_traversal(
            e,
            "absolute paths are not allowed"@,
        )),
        !(relative_path@.len() > 0 && relative_path@[0] == '/') && components(
            relative_path@,
        ).contains(Comp::ParentDir) ==> (r matches Err(e) && is_traversal(
            e,
            "path must not contain '..' components"@,
        )),
        !(relative_path@.len() > 0 && relative_path@[0] == '/') && !components(
            relative_path@,
        ).contains(Comp::ParentDir) ==> (r matches Ok(p) && p@ == path_join(
            path_join(wiki_root@, "wiki"@),
            relative_path@,
        )),
{
    let cs = chars_of(relative_path);
    if cs.len() > 0 && cs[0] == '/' {
        return Err(WikiError::PathTraversal(owned("absolute paths are not allowed")));
    }
    let comps = components_of(cs.as_slice());
    let ghost cv = comps@.map_values(|c: Component| comp_view(c));
    let mut i: usize = 0;
    while i < comps.len()
        invariant
            i <= comps@.len(),
            cs@ == relative_path@,
            !(cs@.len() > 0 && cs@[0] == '/'),
            cv == components(relative_path@),
            cv == comps@.map_values(|c: Component| comp_view(c)),
            forall|k: int| 0 <= k < i ==> cv[k] != Comp::ParentDir,
        decreases comps@.len() - i,
    {
        let is_parent = match &comps[i] {
            Component::ParentDir => true,
            _ => false,
        };
        proof {
            assert(cv[i as int] == comp_view(comps@[i as int]));
        }
        if is_parent {
            return Err(WikiError::PathTraversal(owned("path must not contain '..' components")));
        }
        i += 1;
    }
    proof {
        if cv.contains(Comp::ParentDir) {
            let k = choose|k: int| 0 <= k < cv.len() && cv[k] == Comp::ParentDir;
        }
    }
    let w = join_path(wiki_root, "wiki");
    Ok(join_path(w.as_str(), relative_path))
}

/// `base`'s components are a prefix of `p`'s (`Path::starts_with`).
pub open spec fn path_starts_with(p: Seq<char>, base: Seq<char>) -> bool {
    components(base).len() <= components(p).len() && components(p).take(
        components(base).len() as int,
    ) == components(base)
}

fn comp_eq(a: &Component, b: &Component) -> (r: bool)
    ensures
        r == (comp_view(*a) == comp_view(*b)),
{
    match (a, b) {
        (Component::RootDir, Component::RootDir) => true,
        (Component::CurDir, Component::CurDir) => true,
        (Component::ParentDir, Component::ParentDir) => true,
        (Component::Normal(x), Component::Normal(y)) => crate::text::eq_chars(x.as_slice(), y.as_slice()),
        _ => false,
    }
}

/// The last check of a page path, on its symlink-resolved form and that of
/// the `wiki/` directory: the path must lie under the directory.
pub fn inside_wiki_dir(check_path: &str, check_base: &str) -> (r: Result<(), WikiError>)
    ensures
        r is Ok <==> path_starts_with(check_path@, check_base@),
        r matches Err(e) ==> is_traversal(e, "resolved path is outside the wiki directory"@),
{
    let pc = chars_of(check_path);
    let bc = chars_of(check_base);
    let p = components_of(pc.as_slice());
    let b = components_of(bc.as_slice());
    let ghost pv = p@.map_values(|c: Component| comp_view(c));
    let ghost bv = b@.map_values(|c: Component| comp_view(c));
    if b.len() > p.len() {
        return Err(WikiError::PathTraversal(owned("resolved path is outside the wiki directory")));
    }
    let mut i: usize = 0;
    while i < b.len()
        invariant
            i <= b@.len() <= p@.len(),
            pv == p@.map_values(|c: Component| comp_view(c)),
            bv == b@.map_values(|c: Component| comp_view(c)),
            pv == components(check_path@),
            bv == components(check_base@),
            forall|k: int| 0 <= k < i ==> pv[k] == bv[k],
        decreases b@.len() - i,
    {
        let same = comp_eq(&p[i], &b[i]);
        proof {
            assert(pv[i as int] == comp_view(p@[i as int]));
            assert(bv[i as int] == comp_view(b@[i as int]));
        }
        if !same {
            proof {
                assert(pv.take(bv.len() as int)[i as int] != bv[i as int]);
            }
            return Err(WikiError::PathTraversal(owned("resolved path is outside the wiki directory")));
        }
        i += 1;
    }
    proof {
        assert(pv.take(bv.len() as int) =~= bv);
    }
    Ok(())
}

} // verus!
