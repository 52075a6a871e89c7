//! Lint rules over a wiki: pages with TODOs, broken `related` entries,
//! orphans, concepts linked often but never written, stale pages, stale
//! journal captures and unlinked mentions of other pages.

use crate::aliases::AliasIndex;
use crate::fs::{category_from_path, category_of};
use crate::mentions::{body_mentions, find_unlinked_mentions, mention_views};
use crate::path::{file_stem, file_stem_of};
use crate::git::{compute_freshness, freshness, FreshnessLevel};
use crate::journal::StaleJournalFinding;
use crate::link::{extract_wiki_links, resolve_link, resolve_spec, wiki_links, CategoryFiles};
use crate::order::{entry_set, names_distinct, tally, tally_has};
use crate::page::Page;
use crate::text::{
    chars_of, contains, decimal, decimal_chars, ends_with, occurs_at, occurs_at_exec, owned,
    push_all, signed_decimal, signed_decimal_chars, starts_with, str_eq, string_of, views,
};
use vstd::prelude::*;

verus! {

// ───────────────────────── findings ─────────────────────────

/// One unlinked-mention finding.
#[derive(Debug, Clone)]
pub struct UnlinkedMentionFinding {
    /// Always `unlinked-mentions`.
    pub rule: String,
    /// The page holding the mention, e.g. `wiki/tools/comrak.md`.
    pub path: String,
    /// 1-based line of the mention in the page body.
    pub line: u32,
    /// The text that matched, as written.
    pub term: String,
    /// The slug of the page the term refers to.
    pub target: String,
}

/// `<path>:<line> — "<term>" could link to [[<target>]]` (with an em dash).
pub open spec fn mention_line(path: Seq<char>, line: nat, term: Seq<char>, target: Seq<char>) -> Seq<char> {
    path + ":"@ + decimal(line) + " \u{2014} \""@ + term + "\" could link to [["@ + target + "]]"@
}

impl UnlinkedMentionFinding {
    /// The finding as one line of text.
    pub fn to_text_line(&self) -> (r: String)
        ensures
            r@ == mention_line(self.path@, self.line as nat, self.term@, self.target@),
    {
        let mut m = chars_of(self.path.as_str());
        push_all(&mut m, chars_of(":").as_slice());
        push_all(&mut m, decimal_chars(self.line as u64).as_slice());
        push_all(&mut m, chars_of(" \u{2014} \"").as_slice());
        push_all(&mut m, chars_of(self.term.as_str()).as_slice());
        push_all(&mut m, chars_of("\" could link to [[").as_slice());
        push_all(&mut m, chars_of(self.target.as_str()).as_slice());
        push_all(&mut m, chars_of("]]").as_slice());
        string_of(m.as_slice())
    }
}

/// A lint finding: the page and what is wrong with it.
#[derive(Debug, Clone)]
pub struct LintFinding {
    pub path: String,
    pub detail: String,
}

/// The freshness part of a lint report.
#[derive(Debug)]
pub struct FreshnessReport {
    pub fresh: usize,
    pub suspect: usize,
    pub stale: usize,
    pub stale_pages: Vec<LintFinding>,
}

/// A whole lint report.
#[derive(Debug)]
pub struct LintReport {
    pub todo_pages: Vec<LintFinding>,
    pub broken_related: Vec<LintFinding>,
    pub orphan_pages: Vec<LintFinding>,
    pub missing_concepts: Vec<LintFinding>,
    pub freshness: FreshnessReport,
    /// Journal pages whose last commit is older than the journal threshold.
    pub stale_journal_pages: Vec<LintFinding>,
    pub unlinked_mentions: Vec<UnlinkedMentionFinding>,
}

impl LintReport {
    /// Some rule found something (a stale page counts; suspect ones do not).
    pub fn has_findings(&self) -> (r: bool)
        ensures
            r == (self.todo_pages@.len() > 0 || self.broken_related@.len() > 0
                || self.orphan_pages@.len() > 0 || self.missing_concepts@.len() > 0
                || self.stale_journal_pages@.len() > 0 || self.freshness.stale > 0
                || self.unlinked_mentions@.len() > 0),
    {
        self.todo_pages.len() > 0 || self.broken_related.len() > 0 || self.orphan_pages.len() > 0
            || self.missing_concepts.len() > 0 || self.stale_journal_pages.len() > 0
            || self.freshness.stale > 0 || self.unlinked_mentions.len() > 0
    }
}

/// The view of a finding.
pub open spec fn fv(f: LintFinding) -> (Seq<char>, Seq<char>) {
    (f.path@, f.detail@)
}

pub open spec fn fvs(s: Seq<LintFinding>) -> Seq<(Seq<char>, Seq<char>)> {
    s.map_values(|f: LintFinding| fv(f))
}

fn finding(path: &str, detail: Vec<char>) -> (r: LintFinding)
    ensures
        fv(r) == (path@, detail@),
{
    LintFinding { path: owned(path), detail: string_of(detail.as_slice()) }
}

// ───────────────────────── links in index.md ─────────────────────────

/// Index of the first `)` at or after `i`, or `s.len()`.
pub open spec fn close_paren(s: Seq<char>, i: int) -> int
    decreases s.len() - i,
{
    if i >= s.len() {
        s.len() as int
    } else if s[i] == ')' {
        i
    } else {
        close_paren(s, i + 1)
    }
}

/// A markdown link to a `.md` file starting at `i` (`](<target>.md)`):
/// the target and where scanning resumes.
pub open spec fn md_link_at(s: Seq<char>, i: int) -> Option<(Seq<char>, int)> {
    if occurs_at(s, "]("@, i) {
        let j = close_paren(s, i + 2);
        if j < s.len() && j - (i + 2) >= 4 && ends_with(s.subrange(i + 2, j), ".md"@) {
            Some((s.subrange(i + 2, j), j + 1))
        } else {
            None
        }
    } else {
        None
    }
}

/// The `.md` link targets of `s` from `i` on, left to right.
pub open spec fn md_links_from(s: Seq<char>, i: int) -> Seq<Seq<char>>
    decreases s.len() - i,
{
    if i < 0 || i >= s.len() {
        Seq::empty()
    } else {
        match md_link_at(s, i) {
            Some((t, next)) => if next > i {
                seq![t] + md_links_from(s, next)
            } else {
                Seq::empty()
            },
            None => md_links_from(s, i + 1),
        }
    }
}

proof fn lemma_close_paren(s: Seq<char>, i: int)
    requires
        0 <= i,
    ensures
        i <= close_paren(s, i) <= s.len() || (i > s.len() && close_paren(s, i) == s.len()),
        close_paren(s, i) < s.len() ==> s[close_paren(s, i)] == ')',
        forall|k: int| i <= k < close_paren(s, i) ==> s[k] != ')',
    decreases s.len() - i,
{
    if i < s.len() && s[i] != ')' {
        lemma_close_paren(s, i + 1);
    }
}

/// The targets of the markdown links to `.md` files in an index page.
pub fn index_links(index_md: &str) -> (r: Vec<String>)
    ensures
        views(r@) == md_links_from(index_md@, 0),
{
    let s = chars_of(index_md);
    let mut r: Vec<String> = Vec::new();
    let mut i: usize = 0;
    proof {
        reveal_strlit("](");
        reveal_strlit(".md");
    }
    while i < s.len()
        invariant
            i <= s@.len(),
            s@ == index_md@,
            md_links_from(s@, 0) == views(r@) + md_links_from(s@, i as int),
        decreases s@.len() - i,
    {
        let ghost before = r@;
        proof {
            reveal_strlit("](");
            reveal_strlit(".md");
        }
        if occurs_at_exec(s.as_slice(), chars_of("](").as_slice(), i) {
            let mut j = i + 2;
            proof {
                lemma_close_paren(s@, (i + 2) as int);
            }
            while j < s.len() && s[j] != ')'
                invariant
                    i + 2 <= j <= s@.len(),
                    close_paren(s@, (i + 2) as int) == close_paren(s@, j as int),
                decreases s@.len() - j,
            {
                j += 1;
            }
            let seg_ok = j < s.len() && j - (i + 2) >= 4 && s[j - 3] == '.' && s[j - 2] == 'm'
                && s[j - 1] == 'd';
            proof {
                let seg = s@.subrange(i + 2, j as int);
                if j < s@.len() && j - (i + 2) >= 4 {
                    assert(ends_with(seg, ".md"@) == (s@[j - 3] == '.' && s@[j - 2] == 'm' && s@[j
                        - 1] == 'd')) by {
                        let tail = seg.subrange(seg.len() - 3, seg.len() as int);
                        assert(tail[0] == s@[j - 3] && tail[1] == s@[j - 2] && tail[2] == s@[j - 1]);
                        if s@[j - 3] == '.' && s@[j - 2] == 'm' && s@[j - 1] == 'd' {
                            assert(tail =~= ".md"@);
                        }
                    }
                }
            }
            if seg_ok {
                let t = crate::text::slice_chars(s.as_slice(), i + 2, j);
                r.push(string_of(t.as_slice()));
                proof {
                    assert(views(r@) =~= views(before).push(t@));
                    assert(views(before) + md_links_from(s@, i as int) =~= views(r@)
                        + md_links_from(s@, j + 1));
                }
                i = j + 1;
            } else {
                i += 1;
            }
        } else {
            i += 1;
        }
    }
    r
}

// ───────────────────────── the pages linted ─────────────────────────

/// What linting needs to know of one page file.
#[derive(Debug)]
pub struct LintPage {
    /// The path relative to `wiki/`.
    pub rel_path: String,
    /// The page, when it could be read.
    pub page: Option<Page>,
    /// For each `related` entry, whether `wiki/<entry>` exists.
    pub related_exists: Vec<bool>,
    /// Days since the file's last commit (`None` without git history).
    pub age_days: Option<i64>,
}

/// The page is inside the category filter (its first directory, or the
/// empty string for a top-level page, equals the filter).
pub open spec fn considered(p: LintPage, category: Option<Seq<char>>) -> bool {
    match category {
        Some(f) => (match category_of(p.rel_path@) {
            Some(c) => c,
            None => Seq::empty(),
        }) == f,
        None => true,
    }
}

/// The page is considered and could be read.
pub open spec fn checked(p: LintPage, category: Option<Seq<char>>) -> bool {
    considered(p, category) && p.page is Some
}

pub open spec fn opt_seq(o: Option<&str>) -> Option<Seq<char>> {
    match o {
        Some(s) => Some(s@),
        None => None,
    }
}

fn is_considered(p: &LintPage, category: Option<&str>) -> (r: bool)
    ensures
        r == considered(*p, opt_seq(category)),
{
    proof {
        reveal_strlit("");
    }
    match category {
        Some(f) => {
            let c = match category_from_path(p.rel_path.as_str()) {
                Some(c) => c,
                None => owned(""),
            };
            assert(c@ == match category_of(p.rel_path@) {
                Some(x) => x,
                None => Seq::<char>::empty(),
            });
            str_eq(c.as_str(), f)
        },
        None => true,
    }
}

// ───────────────────────── TODO pages ─────────────────────────

/// Checked pages whose body contains `TODO:`.
pub open spec fn todo_findings(ps: Seq<LintPage>, cat: Option<Seq<char>>) -> Seq<(Seq<char>, Seq<char>)>
    decreases ps.len(),
{
    if ps.len() == 0 {
        Seq::empty()
    } else {
        todo_findings(ps.drop_last(), cat) + if checked(ps.last(), cat) && contains(
            ps.last().page->0.body@,
            "TODO:"@,
        ) {
            seq![(ps.last().rel_path@, "Page body contains TODO:"@)]
        } else {
            Seq::empty()
        }
    }
}

fn has_todo(body: &str) -> (r: bool)
    ensures
        r == contains(body@, "TODO:"@),
{
    let s = chars_of(body);
    let pat = chars_of("TODO:");
    match crate::text::find_from(s.as_slice(), pat.as_slice(), 0) {
        Some(_) => true,
        None => false,
    }
}

// ───────────────────────── broken related entries ─────────────────────────

/// The `related` entries of a page whose target does not exist.
pub open spec fn related_broken(rel: Seq<char>, rs: Seq<Seq<char>>, ex: Seq<bool>) -> Seq<(Seq<char>, Seq<char>)>
    decreases rs.len(),
{
    if rs.len() == 0 {
        Seq::empty()
    } else {
        related_broken(rel, rs.drop_last(), ex) + if !(rs.len() - 1 < ex.len() && ex[rs.len()
            - 1]) {
            seq![(rel, "related entry not found: "@ + rs.last())]
        } else {
            Seq::empty()
        }
    }
}

/// The broken `related` entries of one page when it is checked.
pub open spec fn page_broken(p: LintPage, cat: Option<Seq<char>>) -> Seq<(Seq<char>, Seq<char>)> {
    if checked(p, cat) && p.page->0.related is Some {
        related_broken(p.rel_path@, views(p.page->0.related->0@), p.related_exists@)
    } else {
        Seq::empty()
    }
}

pub open spec fn broken_findings(ps: Seq<LintPage>, cat: Option<Seq<char>>) -> Seq<(Seq<char>, Seq<char>)>
    decreases ps.len(),
{
    if ps.len() == 0 {
        Seq::empty()
    } else {
        broken_findings(ps.drop_last(), cat) + page_broken(ps.last(), cat)
    }
}

// ───────────────────────── references and orphans ─────────────────────────

/// What a checked page refers to: its `related` entries and the pages its
/// body links resolve to.
pub open spec fn page_refers(p: LintPage, cat: Option<Seq<char>>, cats: Seq<CategoryFiles>, x: Seq<char>) -> bool {
    &&& checked(p, cat)
    &&& {
        ||| (p.page->0.related matches Some(rs) && views(rs@).contains(x))
        ||| exists|l: Seq<char>|
            #![trigger resolve_spec(l, cats)]
            wiki_links(p.page->0.body@).contains(l) && resolve_spec(l, cats) == Some(x)
    }
}

/// `x` is referenced by the index page or by some checked page.
pub open spec fn referenced(
    ps: Seq<LintPage>,
    cat: Option<Seq<char>>,
    cats: Seq<CategoryFiles>,
    index: Seq<Seq<char>>,
    x: Seq<char>,
) -> bool {
    index.contains(x) || exists|k: int| 0 <= k < ps.len() && page_refers(ps[k], cat, cats, x)
}

/// Pages that are never orphans: the index, the log and journal pages.
pub open spec fn exempt(rel: Seq<char>) -> bool {
    rel == "index.md"@ || rel == "log.md"@ || starts_with(rel, "_journal/"@) || starts_with(
        rel,
        "_journal\\"@,
    )
}

/// Considered, non-exempt pages nothing refers to, each path once.
pub open spec fn orphan_findings(
    ps: Seq<LintPage>,
    all: Seq<LintPage>,
    cat: Option<Seq<char>>,
    cats: Seq<CategoryFiles>,
    index: Seq<Seq<char>>,
) -> Seq<(Seq<char>, Seq<char>)>
    decreases ps.len(),
{
    if ps.len() == 0 {
        Seq::empty()
    } else {
        let p = ps.last();
        let earlier = ps.drop_last().map_values(|q: LintPage| q.rel_path@);
        orphan_findings(ps.drop_last(), all, cat, cats, index) + if considered(p, cat) && !exempt(
            p.rel_path@,
        ) && !referenced(all, cat, cats, index, p.rel_path@) && !earlier.contains(p.rel_path@) {
            seq![(p.rel_path@, "Not referenced by any page or index.md"@)]
        } else {
            Seq::empty()
        }
    }
}

// ───────────────────────── missing concepts ─────────────────────────

/// The body links of checked pages, page after page.
pub open spec fn link_occurrences(ps: Seq<LintPage>, cat: Option<Seq<char>>) -> Seq<Seq<char>>
    decreases ps.len(),
{
    if ps.len() == 0 {
        Seq::empty()
    } else {
        link_occurrences(ps.drop_last(), cat) + if checked(ps.last(), cat) {
            wiki_links(ps.last().page->0.body@)
        } else {
            Seq::empty()
        }
    }
}

/// A missing-concept finding: a link target used by at least three
/// checked pages that resolves nowhere.
pub open spec fn missing_concept(
    ps: Seq<LintPage>,
    cat: Option<Seq<char>>,
    cats: Seq<CategoryFiles>,
    f: (Seq<char>, Seq<char>),
) -> bool {
    exists|s: Seq<char>, n: nat|
        #![trigger tally_has(link_occurrences(ps, cat), (s, n))]
        tally_has(link_occurrences(ps, cat), (s, n)) && n >= 3 && resolve_spec(s, cats) is None && f
            == ("concepts/"@ + s + ".md"@, "Referenced by "@ + decimal(n)
            + " pages but no concept page exists"@)
}

// ───────────────────────── freshness ─────────────────────────

/// The decay a page is judged by.
pub open spec fn page_decay(pg: Page) -> Seq<char> {
    match pg.decay {
        Some(d) => d@,
        None => "normal"@,
    }
}

/// A checked page's freshness; a page without git history counts fresh.
pub open spec fn lint_level(p: LintPage, days: u32) -> FreshnessLevel {
    match p.age_days {
        Some(a) => freshness(page_decay(p.page->0), a as int, days),
        None => FreshnessLevel::Fresh,
    }
}

pub open spec fn count_lint_level(ps: Seq<LintPage>, cat: Option<Seq<char>>, days: u32, lvl: FreshnessLevel) -> nat
    decreases ps.len(),
{
    if ps.len() == 0 {
        0
    } else {
        count_lint_level(ps.drop_last(), cat, days, lvl) + if checked(ps.last(), cat) && lint_level(
            ps.last(),
            days,
        ) == lvl {
            1nat
        } else {
            0nat
        }
    }
}

/// The stale-page findings: `stale (decay=<decay>, age=<days>d)`.
pub open spec fn stale_findings(ps: Seq<LintPage>, cat: Option<Seq<char>>, days: u32) -> Seq<(Seq<char>, Seq<char>)>
    decreases ps.len(),
{
    if ps.len() == 0 {
        Seq::empty()
    } else {
        let p = ps.last();
        stale_findings(ps.drop_last(), cat, days) + if checked(p, cat) && lint_level(p, days)
            == FreshnessLevel::Stale {
            seq![
                (p.rel_path@, "stale (decay="@ + page_decay(p.page->0) + ", age="@ + signed_decimal(
                    match p.age_days {
                        Some(a) => a as int,
                        None => 0,
                    },
                ) + "d)"@),
            ]
        } else {
            Seq::empty()
        }
    }
}

// ───────────────────────── stale journal pages ─────────────────────────

/// Stale journal findings inside the category filter, as lint findings.
pub open spec fn journal_findings(js: Seq<StaleJournalFinding>, cat: Option<Seq<char>>, t: u32) -> Seq<(Seq<char>, Seq<char>)>
    decreases js.len(),
{
    if js.len() == 0 {
        Seq::empty()
    } else {
        let j = js.last();
        journal_findings(js.drop_last(), cat, t) + if (match cat {
            Some(f) => starts_with(j.path@, f + "/"@),
            None => true,
        }) {
            seq![
                (j.path@, "stale capture (age="@ + signed_decimal(j.age_days as int) + "d, threshold="@
                    + decimal(t as nat) + "d) \u{2014} promote or archive"@),
            ]
        } else {
            Seq::empty()
        }
    }
}


// ───────────────────────── computing the report ─────────────────────────

fn todo_pages_of(pages: &Vec<LintPage>, category: Option<&str>) -> (r: Vec<LintFinding>)
    ensures
        fvs(r@) == todo_findings(pages@, opt_seq(category)),
{
    let ghost cat = opt_seq(category);
    let mut r: Vec<LintFinding> = Vec::new();
    let mut i: usize = 0;
    while i < pages.len()
        invariant
            i <= pages@.len(),
            cat == opt_seq(category),
            fvs(r@) == todo_findings(pages@.take(i as int), cat),
        decreases pages@.len() - i,
    {
        proof {
            assert(pages@.take(i + 1).drop_last() == pages@.take(i as int));
            assert(pages@.take(i + 1).last() == pages@[i as int]);
            reveal_strlit("Page body contains TODO:");
        }
        let p = &pages[i];
        let ghost before = r@;
        if is_considered(p, category) {
            match &p.page {
                Some(pg) => {
                    if has_todo(pg.body.as_str()) {
                        r.push(finding(p.rel_path.as_str(), chars_of("Page body contains TODO:")));
                        proof {
                            assert(fvs(r@) =~= fvs(before).push(fv(r@.last())));
                        }
                    }
                },
                None => {},
            }
        }
        proof {
            assert(fvs(r@) =~= todo_findings(pages@.take(i + 1), cat));
        }
        i += 1;
    }
    proof {
        assert(pages@.take(i as int) == pages@);
    }
    r
}

fn related_broken_of(rel: &str, rs: &Vec<String>, ex: &Vec<bool>, out: &mut Vec<LintFinding>)
    ensures
        fvs(final(out)@) == fvs(old(out)@) + related_broken(rel@, views(rs@), ex@),
{
    let ghost start = fvs(out@);
    let mut k: usize = 0;
    while k < rs.len()
        invariant
            k <= rs@.len(),
            fvs(out@) == start + related_broken(rel@, views(rs@.take(k as int)), ex@),
        decreases rs@.len() - k,
    {
        proof {
            assert(views(rs@.take(k + 1)).drop_last() == views(rs@.take(k as int)));
            assert(views(rs@.take(k + 1)).last() == rs@[k as int]@);
            assert(views(rs@.take(k + 1)).len() == k + 1);
        }
        let ok = k < ex.len() && ex[k];
        let ghost before = out@;
        if !ok {
            let mut d = chars_of("related entry not found: ");
            push_all(&mut d, chars_of(rs[k].as_str()).as_slice());
            out.push(finding(rel, d));
            proof {
                assert(fvs(out@) =~= fvs(before).push(fv(out@.last())));
            }
        }
        proof {
            assert(fvs(out@) =~= start + related_broken(rel@, views(rs@.take(k + 1)), ex@));
        }
        k += 1;
    }
    proof {
        assert(rs@.take(k as int) == rs@);
    }
}

fn broken_related_of(pages: &Vec<LintPage>, category: Option<&str>) -> (r: Vec<LintFinding>)
    ensures
        fvs(r@) == broken_findings(pages@, opt_seq(category)),
{
    let ghost cat = opt_seq(category);
    let mut r: Vec<LintFinding> = Vec::new();
    let mut i: usize = 0;
    while i < pages.len()
        invariant
            i <= pages@.len(),
            cat == opt_seq(category),
            fvs(r@) == broken_findings(pages@.take(i as int), cat),
        decreases pages@.len() - i,
    {
        proof {
            assert(pages@.take(i + 1).drop_last() == pages@.take(i as int));
            assert(pages@.take(i + 1).last() == pages@[i as int]);
        }
        let p = &pages[i];
        let ghost before = fvs(r@);
        if is_considered(p, category) {
            match &p.page {
                Some(pg) => match &pg.related {
                    Some(rs) => related_broken_of(p.rel_path.as_str(), rs, &p.related_exists, &mut r),
                    None => {},
                },
                None => {},
            }
        }
        proof {
            assert(fvs(r@) =~= before + page_broken(pages@[i as int], cat));
        }
        i += 1;
    }
    proof {
        assert(pages@.take(i as int) == pages@);
    }
    r
}

fn list_has(v: &Vec<String>, s: &str) -> (r: bool)
    ensures
        r == views(v@).contains(s@),
{
    let mut i: usize = 0;
    while i < v.len()
        invariant
            i <= v@.len(),
            forall|k: int| 0 <= k < i ==> v@[k]@ != s@,
        decreases v@.len() - i,
    {
        if str_eq(v[i].as_str(), s) {
            assert(views(v@)[i as int] == s@);
            return true;
        }
        i += 1;
    }
    proof {
        if views(v@).contains(s@) {
            let k = choose|k: int| 0 <= k < views(v@).len() && views(v@)[k] == s@;
            assert(v@[k]@ == s@);
        }
    }
    false
}

fn push_view(v: &mut Vec<String>, s: String)
    ensures
        views(final(v)@) == views(old(v)@).push(s@),
{
    let ghost before = v@;
    v.push(s);
    proof {
        assert(views(v@) =~= views(before).push(s@));
    }
}

/// Everything the index page and the checked pages refer to.
fn references_of(pages: &Vec<LintPage>, category: Option<&str>, cats: &Vec<CategoryFiles>, index: &Vec<String>) -> (r: Vec<String>)
    ensures
        forall|x: Seq<char>|
            #[trigger] views(r@).contains(x) <==> referenced(pages@, opt_seq(category), cats@, views(index@), x),
{
    let ghost cat = opt_seq(category);
    let mut r: Vec<String> = Vec::new();
    let mut q: usize = 0;
    while q < index.len()
        invariant
            q <= index@.len(),
            views(r@) == views(index@.take(q as int)),
        decreases index@.len() - q,
    {
        push_view(&mut r, owned(index[q].as_str()));
        proof {
            assert(views(index@.take(q + 1)) =~= views(index@.take(q as int)).push(index@[q as int]@));
        }
        q += 1;
    }
    proof {
        assert(index@.take(q as int) == index@);
    }
    let mut i: usize = 0;
    while i < pages.len()
        invariant
            i <= pages@.len(),
            cat == opt_seq(category),
            forall|x: Seq<char>|
                #[trigger] views(r@).contains(x) <==> (views(index@).contains(x) || exists|k: int|
                    0 <= k < i && page_refers(pages@[k], cat, cats@, x)),
        decreases pages@.len() - i,
    {
        let p = &pages[i];
        let ghost r0 = views(r@);
        if is_considered(p, category) {
            match &p.page {
                Some(pg) => {
                    let ghost r1 = views(r@);
                    match &pg.related {
                        Some(rs) => {
                            let mut k: usize = 0;
                            while k < rs.len()
                                invariant
                                    k <= rs@.len(),
                                    views(r@) == r1 + views(rs@.take(k as int)),
                                decreases rs@.len() - k,
                            {
                                push_view(&mut r, owned(rs[k].as_str()));
                                proof {
                                    assert(views(rs@.take(k + 1)) =~= views(rs@.take(k as int)).push(
                                        rs@[k as int]@,
                                    ));
                                }
                                k += 1;
                            }
                            proof {
                                assert(rs@.take(k as int) == rs@);
                            }
                        },
                        None => {},
                    }
                    let ghost r2 = views(r@);
                    let links = extract_wiki_links(pg.body.as_str());
                    let ghost lv = views(links@);
                    let mut k: usize = 0;
                    while k < links.len()
                        invariant
                            k <= links@.len(),
                            lv == views(links@),
                            forall|x: Seq<char>|
                                #[trigger] views(r@).contains(x) <==> (r2.contains(x) || exists|l: Seq<char>|
                                    #![trigger resolve_spec(l, cats@)]
                                    lv.take(k as int).contains(l) && resolve_spec(l, cats@) == Some(x)),
                        decreases links@.len() - k,
                    {
                        let ghost r3 = views(r@);
                        let res = resolve_link(links[k].as_str(), cats);
                        match res {
                            Some(t) => push_view(&mut r, t),
                            None => {},
                        }
                        proof {
                            let s1 = lv.take(k + 1);
                            let s0 = lv.take(k as int);
                            assert(s1 =~= s0.push(lv[k as int]));
                            assert forall|x: Seq<char>| #[trigger] views(r@).contains(x) <==> (r2.contains(x)
                                || exists|l: Seq<char>|
                                #![trigger resolve_spec(l, cats@)]
                                s1.contains(l) && resolve_spec(l, cats@) == Some(x)) by {
                                if exists|l: Seq<char>|
                                    #![trigger resolve_spec(l, cats@)]
                                    s1.contains(l) && resolve_spec(l, cats@) == Some(x) {
                                    let l = choose|l: Seq<char>|
                                        #![trigger resolve_spec(l, cats@)]
                                        s1.contains(l) && resolve_spec(l, cats@) == Some(x);
                                    let w = choose|w: int| 0 <= w < s1.len() && s1[w] == l;
                                    if w < k {
                                        assert(s0[w] == l);
                                    }
                                }
                                if exists|l: Seq<char>|
                                    #![trigger resolve_spec(l, cats@)]
                                    s0.contains(l) && resolve_spec(l, cats@) == Some(x) {
                                    let l = choose|l: Seq<char>|
                                        #![trigger resolve_spec(l, cats@)]
                                        s0.contains(l) && resolve_spec(l, cats@) == Some(x);
                                    let w = choose|w: int| 0 <= w < s0.len() && s0[w] == l;
                                    assert(s1[w] == l);
                                }
                                if resolve_spec(lv[k as int], cats@) == Some(x) {
                                    assert(s1[k as int] == lv[k as int]);
                                }
                                let pushed = views(r@).last();
                                if views(r@).len() > r3.len() {
                                    assert(views(r@) == r3.push(pushed));
                                    if views(r@).contains(x) && !r3.contains(x) {
                                        let w = choose|w: int| 0 <= w < views(r@).len() && views(r@)[w] == x;
                                        if w < r3.len() {
                                            assert(r3[w] == x);
                                        }
                                    }
                                    if r3.contains(x) {
                                        let w = choose|w: int| 0 <= w < r3.len() && r3[w] == x;
                                        assert(views(r@)[w] == x);
                                    }
                                    assert(views(r@)[r3.len() as int] == pushed);
                                }
                            }
                        }
                        k += 1;
                    }
                    proof {
                        assert(lv.take(k as int) == lv);
                        assert forall|x: Seq<char>| #[trigger] views(r@).contains(x) <==> (r0.contains(x)
                            || page_refers(pages@[i as int], cat, cats@, x)) by {
                            match pg.related {
                                Some(rs) => {
                                    assert(r2 == r0 + views(rs@));
                                    if r2.contains(x) {
                                        let w = choose|w: int| 0 <= w < r2.len() && r2[w] == x;
                                        if w >= r0.len() {
                                            assert(views(rs@)[w - r0.len()] == x);
                                        }
                                    }
                                    if views(rs@).contains(x) {
                                        let w = choose|w: int| 0 <= w < views(rs@).len() && views(rs@)[w] == x;
                                        assert(r2[r0.len() + w] == x);
                                    }
                                    if r0.contains(x) {
                                        let w = choose|w: int| 0 <= w < r0.len() && r0[w] == x;
                                        assert(r2[w] == x);
                                    }
                                },
                                None => {
                                    assert(r2 == r0);
                                },
                            }
                        }
                    }
                },
                None => {},
            }
        }
        proof {
            assert forall|x: Seq<char>| #[trigger] views(r@).contains(x) <==> (views(index@).contains(x)
                || exists|k: int| 0 <= k < i + 1 && page_refers(pages@[k], cat, cats@, x)) by {
                if page_refers(pages@[i as int], cat, cats@, x) {
                    assert(checked(pages@[i as int], cat));
                }
                if exists|k: int| 0 <= k < i + 1 && page_refers(pages@[k], cat, cats@, x) {
                    let k = choose|k: int| 0 <= k < i + 1 && page_refers(pages@[k], cat, cats@, x);
                    if k < i {
                        assert(exists|k2: int| 0 <= k2 < i && page_refers(pages@[k2], cat, cats@, x));
                    }
                }
            }
        }
        i += 1;
    }
    r
}


fn is_exempt(rel: &str) -> (r: bool)
    ensures
        r == exempt(rel@),
{
    let c = chars_of(rel);
    str_eq(rel, "index.md") || str_eq(rel, "log.md") || crate::text::starts_with_exec(
        c.as_slice(),
        chars_of("_journal/").as_slice(),
    ) || crate::text::starts_with_exec(c.as_slice(), chars_of("_journal\\").as_slice())
}

fn orphans_of(
    pages: &Vec<LintPage>,
    category: Option<&str>,
    cats: &Vec<CategoryFiles>,
    index: &Vec<String>,
    refs: &Vec<String>,
) -> (r: Vec<LintFinding>)
    requires
        forall|x: Seq<char>|
            #[trigger] views(refs@).contains(x) <==> referenced(pages@, opt_seq(category), cats@, views(index@), x),
    ensures
        fvs(r@) == orphan_findings(pages@, pages@, opt_seq(category), cats@, views(index@)),
{
    let ghost cat = opt_seq(category);
    let mut r: Vec<LintFinding> = Vec::new();
    let mut seen: Vec<String> = Vec::new();
    let mut i: usize = 0;
    while i < pages.len()
        invariant
            i <= pages@.len(),
            cat == opt_seq(category),
            forall|x: Seq<char>|
                #[trigger] views(refs@).contains(x) <==> referenced(pages@, cat, cats@, views(index@), x),
            views(seen@) == pages@.take(i as int).map_values(|q: LintPage| q.rel_path@),
            fvs(r@) == orphan_findings(pages@.take(i as int), pages@, cat, cats@, views(index@)),
        decreases pages@.len() - i,
    {
        let p = &pages[i];
        proof {
            assert(pages@.take(i + 1).drop_last() == pages@.take(i as int));
            assert(pages@.take(i + 1).last() == pages@[i as int]);
            reveal_strlit("Not referenced by any page or index.md");
        }
        let rel = p.rel_path.as_str();
        let ghost before = r@;
        if is_considered(p, category) && !is_exempt(rel) && !list_has(refs, rel) && !list_has(&seen, rel) {
            r.push(finding(rel, chars_of("Not referenced by any page or index.md")));
            proof {
                assert(fvs(r@) =~= fvs(before).push(fv(r@.last())));
            }
        }
        proof {
            assert(fvs(r@) =~= orphan_findings(pages@.take(i + 1), pages@, cat, cats@, views(index@)));
        }
        push_view(&mut seen, owned(rel));
        proof {
            assert(pages@.take(i + 1).map_values(|q: LintPage| q.rel_path@) =~= pages@.take(
                i as int,
            ).map_values(|q: LintPage| q.rel_path@).push(rel@));
        }
        i += 1;
    }
    proof {
        assert(pages@.take(i as int) == pages@);
    }
    r
}

fn missing_concepts_of(pages: &Vec<LintPage>, category: Option<&str>, cats: &Vec<CategoryFiles>) -> (r:
    Vec<LintFinding>)
    ensures
        fvs(r@).no_duplicates(),
        forall|f: (Seq<char>, Seq<char>)|
            #[trigger] fvs(r@).contains(f) <==> missing_concept(pages@, opt_seq(category), cats@, f),
{
    let ghost cat = opt_seq(category);
    let mut occ: Vec<String> = Vec::new();
    let mut i: usize = 0;
    while i < pages.len()
        invariant
            i <= pages@.len(),
            cat == opt_seq(category),
            views(occ@) == link_occurrences(pages@.take(i as int), cat),
        decreases pages@.len() - i,
    {
        let p = &pages[i];
        proof {
            assert(pages@.take(i + 1).drop_last() == pages@.take(i as int));
            assert(pages@.take(i + 1).last() == pages@[i as int]);
        }
        let ghost o0 = views(occ@);
        if is_considered(p, category) {
            match &p.page {
                Some(pg) => {
                    let links = extract_wiki_links(pg.body.as_str());
                    let mut k: usize = 0;
                    while k < links.len()
                        invariant
                            k <= links@.len(),
                            views(occ@) == o0 + views(links@.take(k as int)),
                        decreases links@.len() - k,
                    {
                        push_view(&mut occ, owned(links[k].as_str()));
                        proof {
                            assert(views(links@.take(k + 1)) =~= views(links@.take(k as int)).push(
                                links@[k as int]@,
                            ));
                        }
                        k += 1;
                    }
                    proof {
                        assert(links@.take(k as int) == links@);
                    }
                },
                None => {},
            }
        }
        proof {
            assert(views(occ@) =~= link_occurrences(pages@.take(i + 1), cat));
        }
        i += 1;
    }
    proof {
        assert(pages@.take(i as int) == pages@);
    }
    let counts = tally(&occ);
    let ghost ov = views(occ@);
    let mut r: Vec<LintFinding> = Vec::new();
    let mut k: usize = 0;
    while k < counts.len()
        invariant
            k <= counts@.len(),
            ov == link_occurrences(pages@, cat),
            names_distinct(counts@),
            forall|e: (Seq<char>, nat)| entry_set(counts@).contains(e) <==> tally_has(ov, e),
            fvs(r@).no_duplicates(),
            forall|w: int|
                0 <= w < r@.len() ==> exists|m: int|
                    0 <= m < k && #[trigger] fvs(r@)[w].0 == "concepts/"@ + counts@[m].0@ + ".md"@,
            forall|f: (Seq<char>, Seq<char>)|
                #[trigger] fvs(r@).contains(f) <==> (exists|m: int|
                    0 <= m < k && counts@[m].1 >= 3 && resolve_spec(counts@[m].0@, cats@) is None && f
                        == ("concepts/"@ + counts@[m].0@ + ".md"@, "Referenced by "@ + decimal(
                        counts@[m].1 as nat,
                    ) + " pages but no concept page exists"@)),
        decreases counts@.len() - k,
    {
        proof {
            reveal_strlit("concepts/");
            reveal_strlit(".md");
        }
        let (name, n) = (&counts[k].0, counts[k].1);
        if n >= 3 && resolve_link(name.as_str(), cats).is_none() {
            let mut path = chars_of("concepts/");
            push_all(&mut path, chars_of(name.as_str()).as_slice());
            push_all(&mut path, chars_of(".md").as_slice());
            let mut d = chars_of("Referenced by ");
            push_all(&mut d, decimal_chars(n as u64).as_slice());
            push_all(&mut d, chars_of(" pages but no concept page exists").as_slice());
            let f = LintFinding { path: string_of(path.as_slice()), detail: string_of(d.as_slice()) };
            let ghost before = r@;
            r.push(f);
            proof {
                assert(fvs(r@) =~= fvs(before).push(fv(f)));
                // Distinct names give distinct paths.
                assert forall|w: int| 0 <= w < fvs(before).len() implies fvs(before)[w] != fv(f) by {
                    let m = choose|m: int|
                        0 <= m < k && #[trigger] fvs(before)[w].0 == "concepts/"@ + counts@[m].0@ + ".md"@;
                    if fvs(before)[w].0 == fv(f).0 {
                        assert(("concepts/"@ + counts@[m].0@ + ".md"@).subrange(9, 9 + counts@[m].0@.len() as int)
                            =~= counts@[m].0@);
                        assert(("concepts/"@ + counts@[k as int].0@ + ".md"@).subrange(9, 9 + counts@[k as int].0@.len() as int)
                            =~= counts@[k as int].0@);
                        assert(counts@[m].0@.len() == counts@[k as int].0@.len());
                        assert(counts@[m].0@ == counts@[k as int].0@);
                    }
                }
                assert forall|w: int| 0 <= w < r@.len() implies exists|m: int|
                    0 <= m < k + 1 && #[trigger] fvs(r@)[w].0 == "concepts/"@ + counts@[m].0@ + ".md"@ by {
                    if w < before.len() {
                        assert(fvs(r@)[w] == fvs(before)[w]);
                    } else {
                        assert(fvs(r@)[w].0 == "concepts/"@ + counts@[k as int].0@ + ".md"@);
                    }
                }
                assert forall|f2: (Seq<char>, Seq<char>)| #[trigger] fvs(r@).contains(f2) <==> (exists|m: int|
                    0 <= m < k + 1 && counts@[m].1 >= 3 && resolve_spec(counts@[m].0@, cats@) is None
                        && f2 == ("concepts/"@ + counts@[m].0@ + ".md"@, "Referenced by "@ + decimal(
                        counts@[m].1 as nat,
                    ) + " pages but no concept page exists"@)) by {
                    if fvs(r@).contains(f2) {
                        let w = choose|w: int| 0 <= w < fvs(r@).len() && fvs(r@)[w] == f2;
                        if w < before.len() {
                            assert(fvs(before)[w] == f2);
                        }
                    }
                    if fvs(before).contains(f2) {
                        let w = choose|w: int| 0 <= w < fvs(before).len() && fvs(before)[w] == f2;
                        assert(fvs(r@)[w] == f2);
                    }
                    assert(fvs(r@)[before.len() as int] == fv(f));
                }
            }
        } else {
            proof {
                assert forall|f2: (Seq<char>, Seq<char>)| #[trigger] fvs(r@).contains(f2) <==> (exists|m: int|
                    0 <= m < k + 1 && counts@[m].1 >= 3 && resolve_spec(counts@[m].0@, cats@) is None
                        && f2 == ("concepts/"@ + counts@[m].0@ + ".md"@, "Referenced by "@ + decimal(
                        counts@[m].1 as nat,
                    ) + " pages but no concept page exists"@)) by {
                    if exists|m: int|
                        0 <= m < k + 1 && counts@[m].1 >= 3 && resolve_spec(counts@[m].0@, cats@) is None
                            && f2 == ("concepts/"@ + counts@[m].0@ + ".md"@, "Referenced by "@ + decimal(
                            counts@[m].1 as nat,
                        ) + " pages but no concept page exists"@) {
                        let m = choose|m: int|
                            0 <= m < k + 1 && counts@[m].1 >= 3 && resolve_spec(counts@[m].0@, cats@) is None
                                && f2 == ("concepts/"@ + counts@[m].0@ + ".md"@, "Referenced by "@ + decimal(
                                counts@[m].1 as nat,
                            ) + " pages but no concept page exists"@);
                        assert(m < k);
                    }
                }
            }
        }
        k += 1;
    }
    proof {
        assert forall|f: (Seq<char>, Seq<char>)| #[trigger] fvs(r@).contains(f) <==> missing_concept(
            pages@,
            cat,
            cats@,
            f,
        ) by {
            if fvs(r@).contains(f) {
                let m = choose|m: int|
                    0 <= m < k && counts@[m].1 >= 3 && resolve_spec(counts@[m].0@, cats@) is None && f
                        == ("concepts/"@ + counts@[m].0@ + ".md"@, "Referenced by "@ + decimal(
                        counts@[m].1 as nat,
                    ) + " pages but no concept page exists"@);
                let e = crate::order::entry_view(counts@[m]);
                assert(crate::order::entry_views(counts@)[m] == e);
                assert(entry_set(counts@).contains(e));
                assert(tally_has(ov, (counts@[m].0@, counts@[m].1 as nat)));
            }
            if missing_concept(pages@, cat, cats@, f) {
                let (sname, n) = choose|sname: Seq<char>, n: nat|
                    #![trigger tally_has(link_occurrences(pages@, cat), (sname, n))]
                    tally_has(link_occurrences(pages@, cat), (sname, n)) && n >= 3 && resolve_spec(
                        sname,
                        cats@,
                    ) is None && f == ("concepts/"@ + sname + ".md"@, "Referenced by "@ + decimal(n)
                        + " pages but no concept page exists"@);
                assert(entry_set(counts@).contains((sname, n)));
                let m = choose|m: int|
                    0 <= m < crate::order::entry_views(counts@).len() && crate::order::entry_views(
                        counts@,
                    )[m] == (sname, n);
                assert(crate::order::entry_view(counts@[m]) == (sname, n));
            }
        }
    }
    r
}


proof fn lemma_count_lint_le(ps: Seq<LintPage>, cat: Option<Seq<char>>, days: u32, lvl: FreshnessLevel)
    ensures
        count_lint_level(ps, cat, days, lvl) <= ps.len(),
    decreases ps.len(),
{
    if ps.len() > 0 {
        lemma_count_lint_le(ps.drop_last(), cat, days, lvl);
    }
}

fn freshness_of(pages: &Vec<LintPage>, category: Option<&str>, days: u32) -> (r: FreshnessReport)
    ensures
        r.fresh == count_lint_level(pages@, opt_seq(category), days, FreshnessLevel::Fresh),
        r.suspect == count_lint_level(pages@, opt_seq(category), days, FreshnessLevel::Suspect),
        r.stale == count_lint_level(pages@, opt_seq(category), days, FreshnessLevel::Stale),
        fvs(r.stale_pages@) == stale_findings(pages@, opt_seq(category), days),
{
    let ghost cat = opt_seq(category);
    let mut fresh: usize = 0;
    let mut suspect: usize = 0;
    let mut stale: usize = 0;
    let mut out: Vec<LintFinding> = Vec::new();
    let mut i: usize = 0;
    while i < pages.len()
        invariant
            i <= pages@.len(),
            cat == opt_seq(category),
            fresh == count_lint_level(pages@.take(i as int), cat, days, FreshnessLevel::Fresh),
            suspect == count_lint_level(pages@.take(i as int), cat, days, FreshnessLevel::Suspect),
            stale == count_lint_level(pages@.take(i as int), cat, days, FreshnessLevel::Stale),
            fvs(out@) == stale_findings(pages@.take(i as int), cat, days),
        decreases pages@.len() - i,
    {
        let p = &pages[i];
        let ghost done = pages@.take(i as int);
        proof {
            assert(pages@.take(i + 1).drop_last() == done);
            assert(pages@.take(i + 1).last() == pages@[i as int]);
            lemma_count_lint_le(done, cat, days, FreshnessLevel::Fresh);
            lemma_count_lint_le(done, cat, days, FreshnessLevel::Suspect);
            lemma_count_lint_le(done, cat, days, FreshnessLevel::Stale);
            reveal_strlit("normal");
            reveal_strlit("stale (decay=");
            reveal_strlit(", age=");
            reveal_strlit("d)");
        }
        let ghost before = out@;
        if is_considered(p, category) {
            match &p.page {
                Some(pg) => {
                    let decay = match &pg.decay {
                        Some(d) => d.as_str(),
                        None => "normal",
                    };
                    let level = match p.age_days {
                        Some(a) => compute_freshness(decay, a, days),
                        None => FreshnessLevel::Fresh,
                    };
                    match level {
                        FreshnessLevel::Fresh => fresh += 1,
                        FreshnessLevel::Suspect => suspect += 1,
                        FreshnessLevel::Stale => {
                            stale += 1;
                            let age: i64 = match p.age_days {
                                Some(a) => a,
                                None => 0,
                            };
                            let mut d = chars_of("stale (decay=");
                            push_all(&mut d, chars_of(decay).as_slice());
                            push_all(&mut d, chars_of(", age=").as_slice());
                            push_all(&mut d, signed_decimal_chars(age).as_slice());
                            push_all(&mut d, chars_of("d)").as_slice());
                            out.push(finding(p.rel_path.as_str(), d));
                            proof {
                                assert(fvs(out@) =~= fvs(before).push(fv(out@.last())));
                            }
                        },
                    }
                },
                None => {},
            }
        }
        proof {
            assert(fvs(out@) =~= stale_findings(pages@.take(i + 1), cat, days));
        }
        i += 1;
    }
    proof {
        assert(pages@.take(i as int) == pages@);
    }
    FreshnessReport { fresh, suspect, stale, stale_pages: out }
}

fn journal_of(journal: &Vec<StaleJournalFinding>, category: Option<&str>, threshold: u32) -> (r: Vec<
    LintFinding,
>)
    ensures
        fvs(r@) == journal_findings(journal@, opt_seq(category), threshold),
{
    let ghost cat = opt_seq(category);
    let mut out: Vec<LintFinding> = Vec::new();
    let mut i: usize = 0;
    while i < journal.len()
        invariant
            i <= journal@.len(),
            cat == opt_seq(category),
            fvs(out@) == journal_findings(journal@.take(i as int), cat, threshold),
        decreases journal@.len() - i,
    {
        let j = &journal[i];
        proof {
            assert(journal@.take(i + 1).drop_last() == journal@.take(i as int));
            assert(journal@.take(i + 1).last() == journal@[i as int]);
            reveal_strlit("/");
            reveal_strlit("stale capture (age=");
            reveal_strlit("d, threshold=");
            reveal_strlit("d) \u{2014} promote or archive");
        }
        let keep = match category {
            Some(f) => {
                let mut pre = chars_of(f);
                pre.push('/');
                proof {
                    assert(pre@ == f@ + "/"@);
                }
                crate::text::starts_with_exec(chars_of(j.path.as_str()).as_slice(), pre.as_slice())
            },
            None => true,
        };
        let ghost before = out@;
        if keep {
            let mut d = chars_of("stale capture (age=");
            push_all(&mut d, signed_decimal_chars(j.age_days).as_slice());
            push_all(&mut d, chars_of("d, threshold=").as_slice());
            push_all(&mut d, decimal_chars(threshold as u64).as_slice());
            push_all(&mut d, chars_of("d) \u{2014} promote or archive").as_slice());
            out.push(finding(j.path.as_str(), d));
            proof {
                assert(fvs(out@) =~= fvs(before).push(fv(out@.last())));
            }
        }
        proof {
            assert(fvs(out@) =~= journal_findings(journal@.take(i + 1), cat, threshold));
        }
        i += 1;
    }
    proof {
        assert(journal@.take(i as int) == journal@);
    }
    out
}

// ───────────────────────── unlinked mentions ─────────────────────────

/// A mention finding as plain values: (rule, path, line, term, target).
pub open spec fn umf_view(f: UnlinkedMentionFinding) -> (Seq<char>, Seq<char>, int, Seq<char>, Seq<char>) {
    (f.rule@, f.path@, f.line as int, f.term@, f.target@)
}

pub open spec fn umf_views(s: Seq<UnlinkedMentionFinding>) -> Seq<
    (Seq<char>, Seq<char>, int, Seq<char>, Seq<char>),
> {
    s.map_values(|f: UnlinkedMentionFinding| umf_view(f))
}

/// The slug a page is known by: the stem of its file name.
pub open spec fn page_slug(rel: Seq<char>) -> Seq<char> {
    match file_stem(rel) {
        Some(s) => s,
        None => Seq::empty(),
    }
}

/// The mentions found in the page at `rel`, as findings.
pub open spec fn as_findings(rel: Seq<char>, ms: Seq<(Seq<char>, Seq<char>, int, Seq<char>)>) -> Seq<
    (Seq<char>, Seq<char>, int, Seq<char>, Seq<char>),
> {
    ms.map_values(
        |m: (Seq<char>, Seq<char>, int, Seq<char>)| ("unlinked-mentions"@, "wiki/"@ + rel, m.2, m.0, m.1),
    )
}

/// The unlinked mentions in the bodies of the checked pages, page by page;
/// a page's mentions of itself are not counted.
pub open spec fn mention_findings(
    ps: Seq<LintPage>,
    cat: Option<Seq<char>>,
    idx: Map<Seq<char>, Seq<(Seq<char>, Seq<char>, Seq<char>)>>,
) -> Seq<(Seq<char>, Seq<char>, int, Seq<char>, Seq<char>)>
    decreases ps.len(),
{
    if ps.len() == 0 {
        Seq::empty()
    } else {
        mention_findings(ps.drop_last(), cat, idx) + if checked(ps.last(), cat) {
            as_findings(
                ps.last().rel_path@,
                body_mentions(idx, ps.last().page->0.body@, page_slug(ps.last().rel_path@)),
            )
        } else {
            Seq::empty()
        }
    }
}

/// Every page body is short enough for its line numbers to fit a `u32`.
pub open spec fn bodies_fit(ps: Seq<LintPage>) -> bool {
    forall|i: int|
        0 <= i < ps.len() && (#[trigger] ps[i]).page is Some ==> ps[i].page->0.body@.len() < u32::MAX
}

fn mentions_of(pages: &Vec<LintPage>, category: Option<&str>, aliases: &AliasIndex) -> (r: Vec<
    UnlinkedMentionFinding,
>)
    requires
        bodies_fit(pages@),
    ensures
        umf_views(r@) == mention_findings(pages@, opt_seq(category), aliases@),
{
    let ghost cat = opt_seq(category);
    let mut r: Vec<UnlinkedMentionFinding> = Vec::new();
    let mut i: usize = 0;
    proof {
        reveal_strlit("unlinked-mentions");
        reveal_strlit("wiki/");
        assert(umf_views(r@) =~= Seq::empty());
    }
    while i < pages.len()
        invariant
            i <= pages@.len(),
            cat == opt_seq(category),
            bodies_fit(pages@),
            umf_views(r@) == mention_findings(pages@.take(i as int), cat, aliases@),
        decreases pages@.len() - i,
    {
        proof {
            assert(pages@.take(i + 1).drop_last() == pages@.take(i as int));
            assert(pages@.take(i + 1).last() == pages@[i as int]);
        }
        let p = &pages[i];
        let ghost before = umf_views(r@);
        if is_considered(p, category) {
            match &p.page {
                Some(pg) => {
                    assert(pages@[i as int].page is Some);
                    let rel = chars_of(p.rel_path.as_str());
                    let slug = match file_stem_of(rel.as_slice()) {
                        Some(v) => string_of(v.as_slice()),
                        None => owned(""),
                    };
                    proof {
                        reveal_strlit("");
                    }
                    assert(slug@ == page_slug(p.rel_path@));
                    let ms = find_unlinked_mentions(pg.body.as_str(), aliases, slug.as_str());
                    let ghost mv = mention_views(ms@);
                    let mut path = chars_of("wiki/");
                    push_all(&mut path, rel.as_slice());
                    let mut k: usize = 0;
                    proof {
                        assert(mv.take(0) =~= Seq::empty());
                        assert(umf_views(r@) =~= before + as_findings(p.rel_path@, mv.take(0)));
                    }
                    while k < ms.len()
                        invariant
                            k <= ms@.len(),
                            mv == mention_views(ms@),
                            path@ == "wiki/"@ + p.rel_path@,
                            umf_views(r@) == before + as_findings(p.rel_path@, mv.take(k as int)),
                        decreases ms@.len() - k,
                    {
                        let ghost r0 = umf_views(r@);
                        r.push(
                            UnlinkedMentionFinding {
                                rule: owned("unlinked-mentions"),
                                path: string_of(path.as_slice()),
                                line: ms[k].line,
                                term: owned(ms[k].term.as_str()),
                                target: owned(ms[k].target_slug.as_str()),
                            },
                        );
                        proof {
                            assert(mv.take(k + 1) =~= mv.take(k as int).push(mv[k as int]));
                            assert(umf_views(r@) =~= r0.push(umf_view(r@.last())));
                            assert(as_findings(p.rel_path@, mv.take(k + 1)) =~= as_findings(
                                p.rel_path@,
                                mv.take(k as int),
                            ).push(as_findings(p.rel_path@, mv.take(k + 1)).last()));
                        }
                        k += 1;
                    }
                    proof {
                        assert(mv.take(k as int) =~= mv);
                        assert(checked(pages@[i as int], cat));
                        assert(umf_views(r@) == before + as_findings(
                            pages@[i as int].rel_path@,
                            body_mentions(
                                aliases@,
                                pages@[i as int].page->0.body@,
                                page_slug(pages@[i as int].rel_path@),
                            ),
                        ));
                    }
                },
                None => {
                    assert(!checked(pages@[i as int], cat));
                    assert(umf_views(r@) =~= before + Seq::empty());
                },
            }
        } else {
            assert(!checked(pages@[i as int], cat));
            assert(umf_views(r@) =~= before + Seq::empty());
        }
        proof {
            assert(umf_views(r@) =~= mention_findings(pages@.take(i + 1), cat, aliases@));
        }
        i += 1;
    }
    proof {
        assert(pages@.take(i as int) == pages@);
    }
    r
}

/// Run every lint rule over the page files of a wiki (in `list_pages`
/// order), given `index.md`'s text when there is one, the category
/// directories with their files for resolving links, the schema's review
/// period, the stale journal captures with their threshold, and an
/// optional category to restrict the checks to, and the alias index that
/// unlinked mentions are looked up in.
///
/// Orphans come in page order; missing concepts (link targets used by at
/// least three checked pages that resolve nowhere) in no particular order.
pub fn run_lint(
    pages: &Vec<LintPage>,
    index_md: Option<&str>,
    cats: &Vec<CategoryFiles>,
    default_review_days: u32,
    journal: &Vec<StaleJournalFinding>,
    stale_after_days: u32,
    category: Option<&str>,
    aliases: &AliasIndex,
) -> (r: LintReport)
    requires
        bodies_fit(pages@),
    ensures
        fvs(r.todo_pages@) == todo_findings(pages@, opt_seq(category)),
        fvs(r.broken_related@) == broken_findings(pages@, opt_seq(category)),
        fvs(r.orphan_pages@) == orphan_findings(
            pages@,
            pages@,
            opt_seq(category),
            cats@,
            match index_md {
                Some(t) => md_links_from(t@, 0),
                None => Seq::empty(),
            },
        ),
        fvs(r.missing_concepts@).no_duplicates(),
        forall|f: (Seq<char>, Seq<char>)|
            #[trigger] fvs(r.missing_concepts@).contains(f) <==> missing_concept(
                pages@,
                opt_seq(category),
                cats@,
                f,
            ),
        r.freshness.fresh == count_lint_level(
            pages@,
            opt_seq(category),
            default_review_days,
            FreshnessLevel::Fresh,
        ),
        r.freshness.suspect == count_lint_level(
            pages@,
            opt_seq(category),
            default_review_days,
            FreshnessLevel::Suspect,
        ),
        r.freshness.stale == count_lint_level(
            pages@,
            opt_seq(category),
            default_review_days,
            FreshnessLevel::Stale,
        ),
        fvs(r.freshness.stale_pages@) == stale_findings(pages@, opt_seq(category), default_review_days),
        fvs(r.stale_journal_pages@) == journal_findings(journal@, opt_seq(category), stale_after_days),
        umf_views(r.unlinked_mentions@) == mention_findings(pages@, opt_seq(category), aliases@),
{
    let index = match index_md {
        Some(t) => index_links(t),
        None => Vec::new(),
    };
    proof {
        if index_md is None {
            assert(views(index@) =~= Seq::<Seq<char>>::empty());
        }
    }
    let refs = references_of(pages, category, cats, &index);
    LintReport {
        todo_pages: todo_pages_of(pages, category),
        broken_related: broken_related_of(pages, category),
        orphan_pages: orphans_of(pages, category, cats, &index, &refs),
        missing_concepts: missing_concepts_of(pages, category, cats),
        freshness: freshness_of(pages, category, default_review_days),
        stale_journal_pages: journal_of(journal, category, stale_after_days),
        unlinked_mentions: mentions_of(pages, category, aliases),
    }
}

} // verus!
