//! Search requests and the work around the full-text engine: what a page
//! is indexed with, how many hits to collect, the order hits come out in,
//! and plain-text snippets.

use crate::error::WikiError;
use crate::fs::{category_from_path, category_of};
use crate::order::{lemma_lex_asymmetric, lemma_lex_irreflexive, lemma_lex_total, lemma_lex_transitive, lex_lt, str_lt};
use crate::page::Page;
use crate::text::{
    chars_of, clone_opt, clone_strings, lowercase, occurs_at_exec, opt_view, owned,
    starts_with, str_eq, string_of, to_lowercase, views,
};
use vstd::prelude::*;

verus! {

/// Sort order for search results.
#[derive(Debug, Clone, Copy, PartialEq, Eq, Structural)]
pub enum SearchSort {
    /// Relevance, best first (the default).
    Relevance,
    /// Page title, ascending, ignoring case.
    Title,
    /// First-commit date, newest first (applied by the caller).
    CreatedDesc,
    /// First-commit date, oldest first (applied by the caller).
    CreatedAsc,
}

impl Default for SearchSort {
    fn default() -> (r: Self)
        ensures
            r == SearchSort::Relevance,
    {
        SearchSort::Relevance
    }
}

/// The error message for an unknown sort name.
pub open spec fn invalid_sort_message(s: Seq<char>) -> Seq<char> {
    "invalid sort '"@ + s + "' (expected: relevance | created_desc | created_asc | title)"@
}

impl SearchSort {
    /// Parse the documented names `relevance`, `title`, `created_desc` and
    /// `created_asc`; anything else is an `Internal` error naming it.
    pub fn parse(s: &str) -> (r: Result<Self, WikiError>)
        ensures
            s@ == "relevance"@ ==> r == Ok::<SearchSort, WikiError>(SearchSort::Relevance),
            s@ == "title"@ ==> r == Ok::<SearchSort, WikiError>(SearchSort::Title),
            s@ == "created_desc"@ ==> r == Ok::<SearchSort, WikiError>(SearchSort::CreatedDesc),
            s@ == "created_asc"@ ==> r == Ok::<SearchSort, WikiError>(SearchSort::CreatedAsc),
            s@ != "relevance"@ && s@ != "title"@ && s@ != "created_desc"@ && s@ != "created_asc"@
                ==> (r matches Err(WikiError::Internal(m)) && m@ == invalid_sort_message(s@)),
    {
        proof {
            reveal_strlit("relevance");
            reveal_strlit("title");
            reveal_strlit("created_desc");
            reveal_strlit("created_asc");
            assert("title"@ != "relevance"@) by {
                assert("title"@.len() != "relevance"@.len());
            }
            assert("created_desc"@ != "relevance"@) by {
                assert("created_desc"@.len() != "relevance"@.len());
            }
            assert("created_asc"@ != "relevance"@) by {
                assert("created_asc"@.len() != "relevance"@.len());
            }
            assert("created_desc"@ != "title"@) by {
                assert("created_desc"@.len() != "title"@.len());
            }
            assert("created_asc"@ != "title"@) by {
                assert("created_asc"@.len() != "title"@.len());
            }
            assert("created_asc"@ != "created_desc"@) by {
                assert("created_asc"@.len() != "created_desc"@.len());
            }
        }
        if str_eq(s, "relevance") {
            Ok(SearchSort::Relevance)
        } else if str_eq(s, "title") {
            Ok(SearchSort::Title)
        } else if str_eq(s, "created_desc") {
            Ok(SearchSort::CreatedDesc)
        } else if str_eq(s, "created_asc") {
            Ok(SearchSort::CreatedAsc)
        } else {
            let mut m = chars_of("invalid sort '");
            crate::text::push_all(&mut m, chars_of(s).as_slice());
            crate::text::push_all(
                &mut m,
                chars_of("' (expected: relevance | created_desc | created_asc | title)").as_slice(),
            );
            Err(WikiError::Internal(string_of(m.as_slice())))
        }
    }
}

/// Parameters of a search.
#[derive(Debug, Clone)]
pub struct SearchQuery {
    pub text: Option<String>,
    pub tags: Vec<String>,
    pub category: Option<String>,
    /// Filter on the frontmatter `status` field.
    pub status: Option<String>,
    /// Filter on the frontmatter `author` field.
    pub author: Option<String>,
    /// Result order; the date orders are applied by the caller, which can
    /// see git history.
    pub sort: SearchSort,
    pub limit: usize,
}

/// The index field a search filter applies to.
#[derive(Debug, Clone, Copy, PartialEq, Eq, Structural)]
pub enum FilterField {
    Tag,
    Category,
    Status,
    Author,
}

/// An optional filter: absent, or given as the empty string, is no filter.
pub open spec fn opt_filter(f: FilterField, v: Option<String>) -> Seq<(FilterField, Seq<char>)> {
    match v {
        Some(s) => if s@.len() > 0 {
            seq![(f, s@)]
        } else {
            Seq::empty()
        },
        None => Seq::empty(),
    }
}

/// The term filters a search requires, all of them at once: each tag,
/// then the category, status and author when given and not empty.
pub open spec fn filters_spec(q: SearchQuery) -> Seq<(FilterField, Seq<char>)> {
    views(q.tags@).map_values(|t: Seq<char>| (FilterField::Tag, t)) + opt_filter(
        FilterField::Category,
        q.category,
    ) + opt_filter(FilterField::Status, q.status) + opt_filter(FilterField::Author, q.author)
}

pub open spec fn filter_views(v: Seq<(FilterField, String)>) -> Seq<(FilterField, Seq<char>)> {
    v.map_values(|p: (FilterField, String)| (p.0, p.1@))
}

fn push_opt_filter(out: &mut Vec<(FilterField, String)>, f: FilterField, v: &Option<String>)
    ensures
        filter_views(final(out)@) == filter_views(old(out)@) + opt_filter(f, *v),
{
    let ghost o = filter_views(out@);
    match v {
        Some(s) => {
            if !s.as_str().is_empty() {
                out.push((f, owned(s.as_str())));
                assert(filter_views(out@) =~= o + opt_filter(f, *v));
            } else {
                assert(filter_views(out@) =~= o + opt_filter(f, *v));
            }
        },
        None => {
            assert(filter_views(out@) =~= o + opt_filter(f, *v));
        },
    }
}

/// The term filters of a search: every tag, then the category, status and
/// author; an empty-string category, status or author is ignored.
pub fn search_filters(q: &SearchQuery) -> (r: Vec<(FilterField, String)>)
    ensures
        filter_views(r@) == filters_spec(*q),
{
    let ghost tv = views(q.tags@).map_values(|t: Seq<char>| (FilterField::Tag, t));
    let mut r: Vec<(FilterField, String)> = Vec::new();
    let mut i: usize = 0;
    while i < q.tags.len()
        invariant
            i <= q.tags@.len(),
            tv == views(q.tags@).map_values(|t: Seq<char>| (FilterField::Tag, t)),
            filter_views(r@) == tv.take(i as int),
        decreases q.tags@.len() - i,
    {
        let ghost r0 = filter_views(r@);
        r.push((FilterField::Tag, owned(q.tags[i].as_str())));
        assert(views(q.tags@)[i as int] == q.tags@[i as int]@);
        assert(tv[i as int] == (FilterField::Tag, q.tags@[i as int]@));
        assert(filter_views(r@) =~= r0.push(tv[i as int]));
        assert(tv.take(i + 1) =~= tv.take(i as int).push(tv[i as int]));
        i += 1;
    }
    assert(tv.take(i as int) =~= tv);
    push_opt_filter(&mut r, FilterField::Category, &q.category);
    push_opt_filter(&mut r, FilterField::Status, &q.status);
    push_opt_filter(&mut r, FilterField::Author, &q.author);
    proof {
        assert(filter_views(r@) =~= filters_spec(*q));
    }
    r
}

/// The free text a search parses: the query's text, unless absent or
/// empty (then every page matches).
pub fn search_text(q: &SearchQuery) -> (r: Option<String>)
    ensures
        match q.text {
            Some(t) => if t@.len() > 0 {
                r matches Some(s) && s@ == t@
            } else {
                r is None
            },
            None => r is None,
        },
{
    match &q.text {
        Some(t) => if !t.as_str().is_empty() {
            Some(owned(t.as_str()))
        } else {
            None
        },
        None => None,
    }
}

impl Default for SearchQuery {
    /// No text or filters, relevance order, at most 20 hits.
    fn default() -> (r: Self)
        ensures
            r.text is None,
            r.tags@.len() == 0,
            r.category is None,
            r.status is None,
            r.author is None,
            r.sort == SearchSort::Relevance,
            r.limit == 20,
    {
        SearchQuery {
            text: None,
            tags: Vec::new(),
            category: None,
            status: None,
            author: None,
            sort: SearchSort::Relevance,
            limit: 20,
        }
    }
}

/// How many hits to collect from the engine: the limit itself in relevance
/// order, at least 1000 for the orders applied afterwards.
pub fn collector_limit(query: &SearchQuery) -> (r: usize)
    ensures
        r == match query.sort {
            SearchSort::Relevance => query.limit,
            _ => if query.limit > 1000 {
                query.limit
            } else {
                1000
            },
        },
{
    match query.sort {
        SearchSort::Relevance => query.limit,
        _ => if query.limit > 1000 {
            query.limit
        } else {
            1000
        },
    }
}

// ───────────────────────── indexed fields ─────────────────────────

/// The values a page is indexed with.
#[derive(Debug)]
pub struct IndexFields {
    pub path: String,
    pub title: String,
    /// The lowercased title, for sorting by title.
    pub title_keyword: String,
    pub body: String,
    pub tags: Vec<String>,
    /// The page's category, empty when its path has none.
    pub category: String,
    pub status: Option<String>,
    pub author: Option<String>,
    pub generator: Option<String>,
}

/// The fields a page at `rel_path` is indexed with.
pub fn index_fields(rel_path: &str, page: &Page) -> (r: IndexFields)
    ensures
        r.path@ == rel_path@,
        r.title@ == page.title@,
        r.title_keyword@ == lowercase(page.title@),
        r.body@ == page.body@,
        views(r.tags@) == views(page.tags@),
        r.category@ == match category_of(rel_path@) {
            Some(c) => c,
            None => Seq::empty(),
        },
        opt_view(r.status) == opt_view(page.status),
        opt_view(r.author) == opt_view(page.author),
        opt_view(r.generator) == opt_view(page.generator),
{
    let category = match category_from_path(rel_path) {
        Some(c) => c,
        None => {
            proof {
                reveal_strlit("");
            }
            owned("")
        },
    };
    IndexFields {
        path: owned(rel_path),
        title: owned(page.title.as_str()),
        title_keyword: to_lowercase(page.title.as_str()),
        body: owned(page.body.as_str()),
        tags: clone_strings(&page.tags),
        category,
        status: clone_opt(&page.status),
        author: clone_opt(&page.author),
        generator: clone_opt(&page.generator),
    }
}

// ───────────────────────── hit order ─────────────────────────

/// Hit `a` comes before hit `b` (both positions in the engine's relevance
/// order): by lowercased title, then by position, for `Title`; by position
/// for the other orders.
pub open spec fn hit_before(sort: SearchSort, keys: Seq<Seq<char>>, a: int, b: int) -> bool {
    if sort == SearchSort::Title {
        lex_lt(keys[a], keys[b]) || (keys[a] == keys[b] && a < b)
    } else {
        a < b
    }
}

/// `r` lists the first `min(n, limit)` of the positions `0..n` in
/// `hit_before` order: strictly ordered, and every position left out comes
/// after every position kept.
pub open spec fn hits_ordered(sort: SearchSort, keys: Seq<Seq<char>>, limit: nat, r: Seq<usize>) -> bool {
    let n = keys.len();
    &&& r.len() == if n < limit {
        n
    } else {
        limit
    }
    &&& forall|i: int| 0 <= i < r.len() ==> r[i] < n
    &&& forall|i: int, j: int|
        0 <= i < j < r.len() ==> hit_before(sort, keys, r[i] as int, r[j] as int)
    &&& forall|k: int, i: int|
        0 <= k < n && 0 <= i < r.len() && !r.contains(k as usize) ==> hit_before(
            sort,
            keys,
            r[i] as int,
            k,
        )
}

proof fn lemma_hit_order(sort: SearchSort, keys: Seq<Seq<char>>)
    ensures
        forall|a: int| !hit_before(sort, keys, a, a),
        forall|a: int, b: int| a != b ==> hit_before(sort, keys, a, b) || hit_before(sort, keys, b, a),
        forall|a: int, b: int| hit_before(sort, keys, a, b) ==> !hit_before(sort, keys, b, a),
        forall|a: int, b: int, c: int|
            hit_before(sort, keys, a, b) && hit_before(sort, keys, b, c) ==> hit_before(
                sort,
                keys,
                a,
                c,
            ),
{
    assert forall|a: int| !hit_before(sort, keys, a, a) by {
        lemma_lex_irreflexive(keys[a]);
    }
    assert forall|a: int, b: int| a != b implies hit_before(sort, keys, a, b) || hit_before(
        sort,
        keys,
        b,
        a,
    ) by {
        lemma_lex_total(keys[a], keys[b]);
    }
    assert forall|a: int, b: int| hit_before(sort, keys, a, b) implies !hit_before(
        sort,
        keys,
        b,
        a,
    ) by {
        lemma_lex_asymmetric(keys[a], keys[b]);
        lemma_lex_irreflexive(keys[a]);
    }
    assert forall|a: int, b: int, c: int|
        hit_before(sort, keys, a, b) && hit_before(sort, keys, b, c) implies hit_before(
        sort,
        keys,
        a,
        c,
    ) by {
        if sort == SearchSort::Title {
            if lex_lt(keys[a], keys[b]) && lex_lt(keys[b], keys[c]) {
                lemma_lex_transitive(keys[a], keys[b], keys[c]);
            }
        }
    }
}

fn before_exec(sort: SearchSort, keys: &Vec<String>, a: usize, b: usize) -> (r: bool)
    requires
        a < keys@.len(),
        b < keys@.len(),
    ensures
        r == hit_before(sort, views(keys@), a as int, b as int),
{
    match sort {
        SearchSort::Title => {
            let x = keys[a].as_str();
            let y = keys[b].as_str();
            str_lt(x, y) || (str_eq(x, y) && a < b)
        },
        _ => a < b,
    }
}

/// The order in which to return hits, as positions in the engine's
/// relevance order: sorted by lowercased title (stably) for `Title`, kept
/// as they are for the other orders, and cut to `limit`.
pub fn order_hits(titles: &Vec<String>, sort: SearchSort, limit: usize) -> (r: Vec<usize>)
    ensures
        hits_ordered(sort, titles@.map_values(|t: String| lowercase(t@)), limit as nat, r@),
{
    let mut keys: Vec<String> = Vec::new();
    let mut q: usize = 0;
    while q < titles.len()
        invariant
            q <= titles@.len(),
            views(keys@) == titles@.take(q as int).map_values(|t: String| lowercase(t@)),
        decreases titles@.len() - q,
    {
        let k = to_lowercase(titles[q].as_str());
        let ghost before = keys@;
        keys.push(k);
        proof {
            assert(views(keys@) =~= views(before).push(k@));
            assert(titles@.take(q + 1).map_values(|t: String| lowercase(t@)) =~= titles@.take(
                q as int,
            ).map_values(|t: String| lowercase(t@)).push(lowercase(titles@[q as int]@)));
        }
        q += 1;
    }
    proof {
        assert(titles@.take(q as int) == titles@);
    }
    let ghost kv = views(keys@);
    let n = keys.len();
    let want = if n < limit {
        n
    } else {
        limit
    };
    let mut taken: Vec<bool> = Vec::new();
    let mut z: usize = 0;
    while z < n
        invariant
            z <= n,
            taken@.len() == z,
            forall|k: int| 0 <= k < z ==> !taken@[k],
        decreases n - z,
    {
        taken.push(false);
        z += 1;
    }
    proof {
        lemma_hit_order(sort, kv);
    }
    let mut r: Vec<usize> = Vec::new();
    while r.len() < want
        invariant
            n == keys@.len(),
            kv == views(keys@),
            want <= n,
            r@.len() <= want,
            taken@.len() == n,
            forall|k: int| 0 <= k < n ==> (taken@[k] <==> r@.contains(k as usize)),
            forall|i: int| 0 <= i < r@.len() ==> r@[i] < n,
            forall|i: int, j: int|
                0 <= i < j < r@.len() ==> hit_before(sort, kv, r@[i] as int, r@[j] as int),
            forall|k: int, i: int|
                0 <= k < n && 0 <= i < r@.len() && !r@.contains(k as usize) ==> hit_before(
                    sort,
                    kv,
                    r@[i] as int,
                    k,
                ),
            forall|a: int| !hit_before(sort, kv, a, a),
            forall|a: int, b: int| a != b ==> hit_before(sort, kv, a, b) || hit_before(sort, kv, b, a),
            forall|a: int, b: int| hit_before(sort, kv, a, b) ==> !hit_before(sort, kv, b, a),
            forall|a: int, b: int, c: int|
                hit_before(sort, kv, a, b) && hit_before(sort, kv, b, c) ==> hit_before(
                    sort,
                    kv,
                    a,
                    c,
                ),
        decreases want - r@.len(),
    {
        // Some position is still free: fewer than `n` are taken.
        let mut best: usize = n;
        let mut k: usize = 0;
        while k < n
            invariant
                n == keys@.len(),
                kv == views(keys@),
                taken@.len() == n,
                k <= n,
                best == n || (best < k && !taken@[best as int]),
                best < n ==> forall|m: int|
                    0 <= m < k && !taken@[m] && m != best ==> hit_before(sort, kv, best as int, m),
                best == n ==> forall|m: int| 0 <= m < k ==> taken@[m],
                forall|a: int, b: int| a != b ==> hit_before(sort, kv, a, b) || hit_before(
                    sort,
                    kv,
                    b,
                    a,
                ),
                forall|a: int, b: int, c: int|
                    hit_before(sort, kv, a, b) && hit_before(sort, kv, b, c) ==> hit_before(
                        sort,
                        kv,
                        a,
                        c,
                    ),
            decreases n - k,
        {
            if !taken[k] {
                if best == n || before_exec(sort, &keys, k, best) {
                    best = k;
                }
            }
            k += 1;
        }
        proof {
            if best == n {
                // All positions taken would make `r` hold `n` distinct
                // positions, yet it holds fewer than `want <= n`.
                let ri = r@.map_values(|x: usize| x as int);
                let s = vstd::set_lib::set_int_range(0, n as int);
                assert forall|x: int| s.contains(x) implies ri.to_set().contains(x) by {
                    assert(taken@[x]);
                    assert(r@.contains(x as usize));
                    let i = choose|i: int| 0 <= i < r@.len() && r@[i] == x as usize;
                    assert(ri[i] == x);
                }
                vstd::set_lib::lemma_int_range(0, n as int);
                ri.lemma_cardinality_of_set();
                vstd::seq_lib::seq_to_set_is_finite(ri);
                vstd::set_lib::lemma_len_subset(s, ri.to_set());
                assert(false);
            }
        }
        let ghost old_r = r@;
        let ghost old_taken = taken@;
        r.push(best);
        taken.set(best, true);
        proof {
            assert forall|m: int| 0 <= m < n implies (taken@[m] <==> r@.contains(m as usize)) by {
                if m == best {
                    assert(r@[r@.len() - 1] == best);
                } else if r@.contains(m as usize) {
                    let i = choose|i: int| 0 <= i < r@.len() && r@[i] == m as usize;
                    assert(old_r.contains(m as usize)) by {
                        assert(old_r[i] == m as usize);
                    }
                } else if old_r.contains(m as usize) {
                    let i = choose|i: int| 0 <= i < old_r.len() && old_r[i] == m as usize;
                    assert(r@[i] == m as usize);
                }
            }
            assert forall|i: int, j: int|
                0 <= i < j < r@.len() implies hit_before(sort, kv, r@[i] as int, r@[j] as int) by {
                if j == r@.len() - 1 {
                    assert(!old_r.contains(best)) by {
                        assert(!taken@.update(best as int, false)[best as int]);
                    }
                }
            }
            assert forall|k2: int, i: int|
                0 <= k2 < n && 0 <= i < r@.len() && !r@.contains(k2 as usize) implies hit_before(
                sort,
                kv,
                r@[i] as int,
                k2,
            ) by {
                assert(!old_r.contains(k2 as usize)) by {
                    if old_r.contains(k2 as usize) {
                        let t = choose|t: int| 0 <= t < old_r.len() && old_r[t] == k2 as usize;
                        assert(r@[t] == k2 as usize);
                    }
                }
                if i < old_r.len() {
                    assert(r@[i] == old_r[i]);
                } else {
                    assert(k2 != best) by {
                        assert(r@[r@.len() - 1] == best);
                    }
                    assert(!old_taken[k2]);
                }
            }
        }
    }
    r
}

// ───────────────────────── snippets ─────────────────────────

/// `s` with every occurrence of a non-empty `pat` removed, scanning left
/// to right as `str::replace(pat, "")` does.
pub open spec fn remove_all(s: Seq<char>, pat: Seq<char>) -> Seq<char>
    decreases s.len(),
{
    if s.len() == 0 {
        s
    } else if pat.len() > 0 && starts_with(s, pat) {
        remove_all(s.skip(pat.len() as int), pat)
    } else {
        seq![s[0]] + remove_all(s.drop_first(), pat)
    }
}

fn remove_all_exec(s: &[char], pat: &[char]) -> (r: Vec<char>)
    requires
        pat@.len() > 0,
    ensures
        r@ == remove_all(s@, pat@),
{
    let mut out: Vec<char> = Vec::new();
    let mut i: usize = 0;
    proof {
        assert(s@.skip(0) == s@);
    }
    while i < s.len()
        invariant
            i <= s@.len(),
            pat@.len() > 0,
            remove_all(s@, pat@) == out@ + remove_all(s@.skip(i as int), pat@),
        decreases s@.len() - i,
    {
        let ghost rest = s@.skip(i as int);
        if occurs_at_exec(s, pat, i) {
            proof {
                assert(rest.take(pat@.len() as int) =~= s@.subrange(i as int, i + pat@.len()));
                assert(rest.skip(pat@.len() as int) =~= s@.skip(i + pat@.len()));
            }
            i += pat.len();
        } else {
            proof {
                if starts_with(rest, pat@) {
                    assert(rest.take(pat@.len() as int) =~= s@.subrange(
                        i as int,
                        i + pat@.len(),
                    ));
                }
                assert(rest.drop_first() =~= s@.skip(i + 1));
            }
            let ghost before = out@;
            out.push(s[i]);
            proof {
                assert(out@ == before + seq![s@[i as int]]);
                assert(before + (seq![rest[0]] + remove_all(rest.drop_first(), pat@)) =~= out@
                    + remove_all(rest.drop_first(), pat@));
            }
            i += 1;
        }
    }
    proof {
        assert(s@.skip(i as int).len() == 0);
        assert(out@ + s@.skip(i as int) =~= out@);
    }
    out
}

/// A highlighted snippet made plain: `<b>` and then `</b>` removed.
pub fn strip_highlight(html: &str) -> (r: String)
    ensures
        r@ == remove_all(remove_all(html@, "<b>"@), "</b>"@),
{
    proof {
        reveal_strlit("<b>");
        reveal_strlit("</b>");
    }
    let a = remove_all_exec(chars_of(html).as_slice(), chars_of("<b>").as_slice());
    let b = remove_all_exec(a.as_slice(), chars_of("</b>").as_slice());
    string_of(b.as_slice())
}

} // verus!
