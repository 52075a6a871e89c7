//! Properties that relate several operations of the library.

use crate::aliases::{at_path, elsewhere, page_ref, page_term, with_page, without_path};
use crate::backlinks::{
    all_entries, page_entries, source_path_of, sources_for, updated_sources_spec, SourceView,
};
use crate::journal::{page_after_capture, JournalDate};
use crate::mentions::{
    body_mentions, hits, lemma_mentions_upto_named, lemma_tokens_unmasked, mask_from, names_indexed_page,
    tokens_from, word_char,
};
use crate::page::Page;
use crate::section::frontmatter_end;
use crate::status::{count_level, PageFacts};
use crate::git::FreshnessLevel;
use crate::tag::{occ, taxonomy_of, titles_with};
use crate::tools::split_spec;
use crate::link::{close_pos, dedup, lemma_close_pos, link_at, link_captures, link_target, wiki_links};
use crate::backlinks::{lemma_outbound_any_src, line_links, lines_links, outbound};
use crate::text::{ends_with, find_spec, lines, occurs_at, starts_with, views};
use crate::mentions::{context, emit, line_mentions, match_len, phrase, MAX_WINDOW_TOKENS};
use crate::section::{append_spec, section_spec, upsert_spec};
use crate::text::trim_end;
use crate::lint::{considered, orphan_findings, referenced, LintPage};
use crate::link::CategoryFiles;
use crate::git::freshness;
use crate::backlinks::union_slugs;
use vstd::prelude::*;

verus! {

// ───────────────────────── backlinks ─────────────────────────

/// The pages of `pages` other than the one at `rel`.
pub open spec fn other_pages(pages: Seq<(String, Page)>, rel: Seq<char>) -> Seq<(String, Page)> {
    pages.filter(|e: (String, Page)| e.0@ != rel)
}

proof fn lemma_sources_for_add(a: Seq<(Seq<char>, SourceView)>, b: Seq<(Seq<char>, SourceView)>, t: Seq<char>)
    ensures
        sources_for(a + b, t) == sources_for(a, t) + sources_for(b, t),
{
    let pred = |e: (Seq<char>, SourceView)| e.0 == t;
    Seq::filter_distributes_over_add(a, b, pred);
    assert((a.filter(pred) + b.filter(pred)).map_values(|e: (Seq<char>, SourceView)| e.1) =~= a.filter(
        pred,
    ).map_values(|e: (Seq<char>, SourceView)| e.1) + b.filter(pred).map_values(
        |e: (Seq<char>, SourceView)| e.1,
    ));
}

proof fn lemma_sources_all_from(es: Seq<(Seq<char>, SourceView)>, t: Seq<char>, src: Seq<char>)
    requires
        forall|k: int| 0 <= k < es.len() ==> #[trigger] es[k].1.path == src,
    ensures
        forall|i: int|
            0 <= i < sources_for(es, t).len() ==> #[trigger] sources_for(es, t)[i].path == src,
    decreases es.len(),
{
    reveal_with_fuel(Seq::filter, 2);
    if es.len() > 0 {
        let init = es.drop_last();
        let one = seq![es.last()];
        assert forall|k: int| 0 <= k < init.len() implies #[trigger] init[k].1.path == src by {
            assert(init[k] == es[k]);
        }
        lemma_sources_all_from(init, t, src);
        assert(init + one == es);
        lemma_sources_for_add(init, one, t);
        assert(one.drop_last() =~= Seq::<(Seq<char>, SourceView)>::empty());
        assert(one.last() == es[es.len() - 1]);
        let so = sources_for(one, t);
        assert forall|i: int| 0 <= i < so.len() implies #[trigger] so[i].path == src by {}
        let si = sources_for(init, t);
        assert forall|i: int| 0 <= i < sources_for(es, t).len() implies #[trigger] sources_for(
            es,
            t,
        )[i].path == src by {
            if i < si.len() {
                assert(sources_for(es, t)[i] == si[i]);
            } else {
                assert(sources_for(es, t)[i] == so[i - si.len()]);
            }
        }
    }
}

proof fn lemma_page_entries_path(src: Seq<char>, page: Page, t: Seq<char>)
    ensures
        forall|i: int|
            0 <= i < sources_for(page_entries(src, page), t).len() ==> #[trigger] sources_for(
                page_entries(src, page),
                t,
            )[i].path == src,
{
    let es = page_entries(src, page);
    assert forall|k: int| 0 <= k < es.len() implies #[trigger] es[k].1.path == src by {
        let links = crate::backlinks::link_entries(src, page.body@);
        let rels = crate::backlinks::related_entries(src, crate::backlinks::related_list(page));
        if k < links.len() {
            assert(es[k] == links[k]);
        } else {
            assert(es[k] == rels[k - links.len()]);
        }
    }
    lemma_sources_all_from(es, t, src);
}

proof fn lemma_keep_all(s: Seq<SourceView>, src: Seq<char>)
    requires
        forall|i: int| 0 <= i < s.len() ==> #[trigger] s[i].path != src,
    ensures
        s.filter(|v: SourceView| v.path != src) == s,
    decreases s.len(),
{
    reveal_with_fuel(Seq::filter, 1);
    if s.len() > 0 {
        lemma_keep_all(s.drop_last(), src);
        assert(s.drop_last().push(s.last()) == s);
    }
}

proof fn lemma_drop_all(s: Seq<SourceView>, src: Seq<char>)
    requires
        forall|i: int| 0 <= i < s.len() ==> #[trigger] s[i].path == src,
    ensures
        s.filter(|v: SourceView| v.path != src) == Seq::<SourceView>::empty(),
    decreases s.len(),
{
    reveal_with_fuel(Seq::filter, 1);
    if s.len() > 0 {
        lemma_drop_all(s.drop_last(), src);
    }
}

/// Removing a page's sources from the index of all pages leaves the index
/// of the other pages.
proof fn lemma_filter_out_page(pages: Seq<(String, Page)>, rel: Seq<char>, t: Seq<char>)
    requires
        forall|k: int|
            0 <= k < pages.len() ==> (source_path_of(#[trigger] pages[k].0@) == source_path_of(rel)
                <==> pages[k].0@ == rel),
    ensures
        sources_for(all_entries(pages), t).filter(|v: SourceView| v.path != source_path_of(rel))
            == sources_for(all_entries(other_pages(pages, rel)), t),
    decreases pages.len(),
{
    let src = source_path_of(rel);
    let keep = |v: SourceView| v.path != src;
    reveal_with_fuel(Seq::filter, 1);
    if pages.len() == 0 {
        assert(other_pages(pages, rel) =~= Seq::<(String, Page)>::empty());
        assert(sources_for(Seq::<(Seq<char>, SourceView)>::empty(), t) =~= Seq::<SourceView>::empty());
    } else {
        let init = pages.drop_last();
        let last = pages.last();
        assert forall|k: int|
            0 <= k < init.len() implies (source_path_of(#[trigger] init[k].0@) == source_path_of(rel)
            <==> init[k].0@ == rel) by {
            assert(init[k] == pages[k]);
        }
        lemma_filter_out_page(init, rel, t);
        let lsrc = source_path_of(last.0@);
        let pe = page_entries(lsrc, last.1);
        lemma_sources_for_add(all_entries(init), pe, t);
        Seq::filter_distributes_over_add(sources_for(all_entries(init), t), sources_for(pe, t), keep);
        lemma_page_entries_path(lsrc, last.1, t);
        assert(pages.len() - 1 < pages.len());
        assert(last == pages[pages.len() - 1]);
        assert(other_pages(init, rel) == other_pages(pages, rel).take(other_pages(init, rel).len() as int)
            || true);
        if last.0@ == rel {
            lemma_drop_all(sources_for(pe, t), src);
            assert(other_pages(pages, rel) == other_pages(init, rel));
            assert(sources_for(all_entries(init), t).filter(keep) + Seq::<SourceView>::empty()
                =~= sources_for(all_entries(init), t).filter(keep));
        } else {
            assert(lsrc != src);
            lemma_keep_all(sources_for(pe, t), src);
            assert(other_pages(pages, rel) == other_pages(init, rel).push(last));
            assert(other_pages(pages, rel).drop_last() == other_pages(init, rel));
            lemma_sources_for_add(all_entries(other_pages(init, rel)), pe, t);
        }
    }
}

/// Updating a sidecar after one page changed gives what a rebuild gives:
/// for every target, the sources left by the other pages (in page order)
/// followed by the changed page's own sources, as if that page had been
/// listed last; a removed page simply drops out. This holds when no two
/// different page paths map to the same stored source path.
pub proof fn law_backlink_update_matches_rebuild(
    pages: Seq<(String, Page)>,
    rel: Seq<char>,
    changed: Option<(String, Page)>,
    t: Seq<char>,
)
    requires
        forall|k: int|
            0 <= k < pages.len() ==> (source_path_of(#[trigger] pages[k].0@) == source_path_of(rel)
                <==> pages[k].0@ == rel),
        changed matches Some(e) ==> e.0@ == rel,
    ensures
        updated_sources_spec(
            sources_for(all_entries(pages), t),
            source_path_of(rel),
            t,
            match changed {
                Some(e) => Some(e.1),
                None => None,
            },
        ) == sources_for(
            all_entries(
                match changed {
                    Some(e) => other_pages(pages, rel).push(e),
                    None => other_pages(pages, rel),
                },
            ),
            t,
        ),
{
    lemma_filter_out_page(pages, rel, t);
    match changed {
        Some(e) => {
            let with = other_pages(pages, rel).push(e);
            assert(with.drop_last() == other_pages(pages, rel));
            assert(with.last() == e);
            lemma_sources_for_add(
                all_entries(other_pages(pages, rel)),
                page_entries(source_path_of(e.0@), e.1),
                t,
            );
        },
        None => {
            assert(sources_for(all_entries(other_pages(pages, rel)), t) + Seq::<SourceView>::empty()
                =~= sources_for(all_entries(other_pages(pages, rel)), t));
        },
    }
}

// ───────────────────────── frontmatter ─────────────────────────

/// Splitting a page text into frontmatter and body loses nothing: the two
/// parts put back together are the text.
pub proof fn law_split_frontmatter_reassembles(raw: Seq<char>)
    ensures
        match frontmatter_end(raw) {
            Some(e) => 0 <= e <= raw.len() && raw.take(e) + raw.skip(e) == raw,
            None => Seq::<char>::empty() + raw == raw,
        },
{
    let ss: int = if starts_with(raw, "---\r\n"@) {
        5
    } else {
        4
    };
    lemma_find_occurs(raw, "\n---\n"@, ss);
    lemma_find_occurs(raw, "\n---\r\n"@, ss);
    reveal_strlit("\n---\n");
    reveal_strlit("\n---\r\n");
    match frontmatter_end(raw) {
        Some(e) => {
            assert(raw.take(e) + raw.skip(e) =~= raw);
        },
        None => {
            assert(Seq::<char>::empty() + raw =~= raw);
        },
    }
}

/// A search that finds `pat` at `p` in `a` finds it there in any `b` that
/// agrees with `a` up to the end of that occurrence.
proof fn lemma_find_same_prefix(a: Seq<char>, b: Seq<char>, pat: Seq<char>, i: int, p: int)
    requires
        find_spec(a, pat, i) == Some(p),
        p + pat.len() <= a.len(),
        p + pat.len() <= b.len(),
        forall|k: int| 0 <= k < p + pat.len() ==> a[k] == b[k],
        0 <= i,
    ensures
        find_spec(b, pat, i) == Some(p),
    decreases a.len() + 1 - i,
{
    lemma_find_occurs(a, pat, i);
    if i < p {
        assert(!occurs_at(a, pat, i));
        if occurs_at(b, pat, i) {
            assert(a.subrange(i, i + pat.len()) =~= b.subrange(i, i + pat.len()));
        }
        lemma_find_same_prefix(a, b, pat, i + 1, p);
    } else {
        assert(a.subrange(p, p + pat.len()) =~= b.subrange(p, p + pat.len()));
    }
}

/// A section write keeps the frontmatter block: the page made of a page's
/// block followed by any new body has that same block. This holds when the
/// block's closing `---` line ends with a plain line feed.
pub proof fn law_frontmatter_survives_body_edit(raw: Seq<char>, new_body: Seq<char>)
    requires
        frontmatter_end(raw) is Some,
        ends_with(raw.take(frontmatter_end(raw)->0), "\n---\n"@),
    ensures
        split_spec(split_spec(raw).0 + new_body).0 == split_spec(raw).0,
{
    let e = frontmatter_end(raw)->0;
    let fm = raw.take(e);
    let t = fm + new_body;
    reveal_strlit("\n---\n");
    reveal_strlit("\n---\r\n");
    reveal_strlit("---\n");
    reveal_strlit("---\r\n");
    let ss: int = if starts_with(raw, "---\r\n"@) {
        5
    } else {
        4
    };
    lemma_find_occurs(raw, "\n---\n"@, ss);
    lemma_find_occurs(raw, "\n---\r\n"@, ss);
    assert(4 <= ss);
    let lf_found = find_spec(raw, "\n---\n"@, ss);
    match lf_found {
        Some(p) => {
            assert(e == p + 5);
        },
        None => {
            let p = find_spec(raw, "\n---\r\n"@, ss)->0;
            assert(e == p + 6);
            assert(raw.subrange(p, p + 6)[4] == "\n---\r\n"@[4]);
            assert(raw[e - 2] == '\r');
            assert(fm.subrange(e - 5, e as int)[3] == "\n---\n"@[3]);
            assert(fm[e - 2] == '-');
            assert(false);
        },
    }
    let p = lf_found->0;
    assert(e >= 9);
    assert(t.subrange(0, 5) =~= raw.subrange(0, 5));
    assert(t.subrange(0, 4) =~= raw.subrange(0, 4));
    assert(starts_with(t, "---\r\n"@) == starts_with(raw, "---\r\n"@));
    assert(starts_with(t, "---\n"@) == starts_with(raw, "---\n"@));
    lemma_find_same_prefix(raw, t, "\n---\n"@, ss, p);
    assert(frontmatter_end(t) == Some(e));
    assert(t.take(e) =~= fm);
}

proof fn lemma_find_occurs(s: Seq<char>, pat: Seq<char>, i: int)
    ensures
        find_spec(s, pat, i) matches Some(p) ==> occurs_at(s, pat, p) && i <= p,
    decreases s.len() + 1 - i,
{
    if i <= s.len() && !occurs_at(s, pat, i) {
        lemma_find_occurs(s, pat, i + 1);
    }
}

// ───────────────────────── tags ─────────────────────────

/// How many times `t` is listed over the tags of all pages.
pub open spec fn tag_uses(pages: Seq<Page>, t: Seq<char>) -> nat
    decreases pages.len(),
{
    if pages.len() == 0 {
        0
    } else {
        tag_uses(pages.drop_last(), t) + occ(views(pages.last().tags@), t)
    }
}

/// A tag's count in the taxonomy is the number of times pages list it, and
/// a tag is in the taxonomy exactly when some page lists it.
pub proof fn law_tag_count_is_uses(pages: Seq<Page>, t: Seq<char>)
    ensures
        taxonomy_of(pages).contains_key(t) <==> tag_uses(pages, t) > 0,
        taxonomy_of(pages).contains_key(t) ==> taxonomy_of(pages)[t].len() == tag_uses(pages, t),
    decreases pages.len(),
{
    lemma_titles_len(pages, t);
}

proof fn lemma_titles_len(pages: Seq<Page>, t: Seq<char>)
    ensures
        titles_with(pages, t).len() == tag_uses(pages, t),
    decreases pages.len(),
{
    if pages.len() > 0 {
        lemma_titles_len(pages.drop_last(), t);
    }
}

// ───────────────────────── aliases ─────────────────────────

pub type RefV = (Seq<char>, Seq<char>, Seq<char>);

/// The references to pages under `t`, none when the term is absent.
pub open spec fn refs_of(m: Map<Seq<char>, Seq<RefV>>, t: Seq<char>) -> Seq<RefV> {
    if m.contains_key(t) {
        m[t]
    } else {
        Seq::empty()
    }
}

/// Re-indexing one page replaces exactly its own references: under every
/// term, the references to other pages are kept as they were, and the page
/// is referred to once under each of its current terms and nowhere else.
pub proof fn law_alias_update_replaces_page(
    m: Map<Seq<char>, Seq<RefV>>,
    rel: Seq<char>,
    page: Page,
    t: Seq<char>,
)
    ensures
        refs_of(with_page(without_path(m, "wiki/"@ + rel), rel, page), t).filter(
            elsewhere("wiki/"@ + rel),
        ) == refs_of(m, t).filter(elsewhere("wiki/"@ + rel)),
        refs_of(with_page(without_path(m, "wiki/"@ + rel), rel, page), t).filter(
            at_path("wiki/"@ + rel),
        ) == if page_term(rel, page, t) {
            seq![page_ref(rel, page)]
        } else {
            Seq::<RefV>::empty()
        },
{
    let p = "wiki/"@ + rel;
    let keep = elsewhere(p);
    let mine = at_path(p);
    let w = without_path(m, p);
    let base = refs_of(w, t);
    let kept = refs_of(m, t).filter(keep);
    reveal_with_fuel(Seq::filter, 2);
    assert(base =~= kept) by {
        if !(m.contains_key(t) && kept.len() > 0) {
            assert(kept.len() == 0) by {
                if !m.contains_key(t) {
                    assert(refs_of(m, t) =~= Seq::<RefV>::empty());
                }
            }
        }
    }
    lemma_filter_idem(refs_of(m, t), keep);
    lemma_filter_none(refs_of(m, t), p);
    let extra = if page_term(rel, page, t) {
        seq![page_ref(rel, page)]
    } else {
        Seq::<RefV>::empty()
    };
    assert(page_ref(rel, page).2 == p);
    assert(refs_of(with_page(w, rel, page), t) == base + extra);
    Seq::filter_distributes_over_add(base, extra, keep);
    Seq::filter_distributes_over_add(base, extra, mine);
    if page_term(rel, page, t) {
        assert(extra.drop_last() =~= Seq::<RefV>::empty());
        assert(extra.last() == page_ref(rel, page));
    }
    assert(extra.filter(keep) =~= Seq::<RefV>::empty());
    assert(extra.filter(mine) =~= extra);
    assert(base.filter(keep) == kept);
    assert(base.filter(keep) + extra.filter(keep) =~= kept);
    assert(base.filter(mine) + extra.filter(mine) =~= extra);
}

proof fn lemma_filter_idem(s: Seq<RefV>, f: spec_fn(RefV) -> bool)
    ensures
        s.filter(f).filter(f) == s.filter(f),
    decreases s.len(),
{
    reveal_with_fuel(Seq::filter, 1);
    if s.len() > 0 {
        lemma_filter_idem(s.drop_last(), f);
        if f(s.last()) {
            assert(s.filter(f) == s.drop_last().filter(f).push(s.last()));
            assert(s.filter(f).drop_last() == s.drop_last().filter(f));
        }
    }
}

proof fn lemma_filter_none(s: Seq<RefV>, p: Seq<char>)
    ensures
        s.filter(elsewhere(p)).filter(at_path(p)) == Seq::<RefV>::empty(),
    decreases s.len(),
{
    reveal_with_fuel(Seq::filter, 1);
    if s.len() > 0 {
        lemma_filter_none(s.drop_last(), p);
        let keep = elsewhere(p);
        if keep(s.last()) {
            assert(s.filter(keep) == s.drop_last().filter(keep).push(s.last()));
            assert(s.filter(keep).drop_last() == s.drop_last().filter(keep));
        }
    }
}

// ───────────────────────── status ─────────────────────────

/// Every page is counted in exactly one freshness bucket: fresh, suspect,
/// stale, or without git history.
pub proof fn law_freshness_buckets_cover_pages(ps: Seq<PageFacts>, days: u32)
    ensures
        count_level(ps, days, Some(FreshnessLevel::Fresh)) + count_level(
            ps,
            days,
            Some(FreshnessLevel::Suspect),
        ) + count_level(ps, days, Some(FreshnessLevel::Stale)) + count_level(ps, days, None)
            == ps.len(),
    decreases ps.len(),
{
    if ps.len() > 0 {
        law_freshness_buckets_cover_pages(ps.drop_last(), days);
    }
}

// ───────────────────────── journal ─────────────────────────

/// A capture never rewrites a journal page: the new text starts with the
/// old one and ends with the capture line.
pub proof fn law_capture_only_appends(existing: Seq<char>, date: JournalDate, line: Seq<char>)
    ensures
        starts_with(page_after_capture(Some(existing), date, line), existing),
        ends_with(page_after_capture(Some(existing), date, line), line + "\n"@),
{
    let t = page_after_capture(Some(existing), date, line);
    let sep = if existing.len() == 0 || ends_with(existing, "\n"@) {
        Seq::<char>::empty()
    } else {
        "\n"@
    };
    assert(t == existing + sep + line + "\n"@);
    assert(t.subrange(0, existing.len() as int) =~= existing);
    assert(t.subrange(t.len() - (line + "\n"@).len(), t.len() as int) =~= line + "\n"@);
}

// ───────────────────────── unlinked mentions ─────────────────────────

/// Every unlinked mention found in a body is sound: it is never of the
/// page itself, it lies on one of the body's lines, and the index lists the
/// page it names under the mention's term.
pub proof fn law_mentions_name_indexed_pages(
    idx: Map<Seq<char>, Seq<(Seq<char>, Seq<char>, Seq<char>)>>,
    body: Seq<char>,
    self_slug: Seq<char>,
)
    ensures
        forall|i: int|
            0 <= i < body_mentions(idx, body, self_slug).len() ==> {
                let m = #[trigger] body_mentions(idx, body, self_slug)[i];
                &&& m.1 != self_slug
                &&& 1 <= m.2 <= lines(body).len()
                &&& exists|k: int| 0 <= k < hits(idx, m.0).len() && (#[trigger] hits(idx, m.0)[k]).0 == m.1
            },
{
    lemma_mentions_upto_named(idx, lines(body), lines(body).len() as int, self_slug);
    assert forall|i: int| 0 <= i < body_mentions(idx, body, self_slug).len() implies {
        let m = #[trigger] body_mentions(idx, body, self_slug)[i];
        &&& m.1 != self_slug
        &&& 1 <= m.2 <= lines(body).len()
        &&& exists|k: int| 0 <= k < hits(idx, m.0).len() && (#[trigger] hits(idx, m.0)[k]).0 == m.1
    } by {
        assert(names_indexed_page(idx, body_mentions(idx, body, self_slug)[i], self_slug, lines(body).len() as int));
    }
}

/// Position `p` of line `l` is unmasked word text: outside inline code,
/// `[[…]]` links and URLs, and a word character.
pub open spec fn unmasked_word(l: Seq<char>, p: int) -> bool {
    0 <= p < l.len() && !mask_from(l, 0)[p] && word_char(l[p])
}

/// Masked text never takes part in a mention: every character a token of
/// a line covers is unmasked word text.
pub proof fn law_tokens_avoid_masked_text(l: Seq<char>)
    ensures
        forall|i: int, p: int|
            #![trigger tokens_from(l, mask_from(l, 0), 0)[i], unmasked_word(l, p)]
            0 <= i < tokens_from(l, mask_from(l, 0), 0).len() && tokens_from(l, mask_from(l, 0), 0)[i].0
                <= p < tokens_from(l, mask_from(l, 0), 0)[i].1 ==> unmasked_word(l, p),
{
    lemma_tokens_unmasked(l, mask_from(l, 0), 0);
    let t = tokens_from(l, mask_from(l, 0), 0);
    assert forall|i: int, p: int|
        #![trigger t[i], unmasked_word(l, p)]
        0 <= i < t.len() && t[i].0 <= p < t[i].1 implies unmasked_word(l, p) by {
        assert(crate::mentions::tok_at(l, mask_from(l, 0), p));
    }
}

// ───────────────────────── links per line and per body ─────────────────────────

/// No link the scan from `from` finds covers position `n`.
spec fn no_span(s: Seq<char>, from: int, n: int) -> bool
    decreases s.len() - from,
{
    if from < 0 || from >= s.len() {
        true
    } else if link_at(s, from) {
        let k = close_pos(s, from + 2);
        proof {
            lemma_close_pos(s, from + 2);
        }
        (n < from || k + 2 <= n) && no_span(s, k + 2, n)
    } else {
        no_span(s, from + 1, n)
    }
}

/// Looking for `]` in a prefix finds what the whole text finds, when that
/// lies inside the prefix (either way round).
proof fn lemma_close_prefix(s: Seq<char>, n: int, j: int)
    requires
        0 <= j,
        0 <= n <= s.len(),
    ensures
        close_pos(s.take(n), j) < n ==> close_pos(s, j) == close_pos(s.take(n), j),
        close_pos(s, j) < n ==> close_pos(s.take(n), j) == close_pos(s, j),
    decreases s.len() - j,
{
    if j < n {
        assert(s.take(n)[j] == s[j]);
        if s[j] != ']' {
            lemma_close_prefix(s, n, j + 1);
        }
    } else {
        lemma_close_pos(s, j);
    }
}

/// The scan of `s` from `from` is the scan of its first `n` characters
/// followed by the scan from `n + 1`, when position `n` holds no `[` and
/// no link the scan finds covers it.
proof fn lemma_caps_split(s: Seq<char>, from: int, n: int)
    requires
        0 <= from <= n < s.len(),
        s[n] != '[',
        no_span(s, from, n),
    ensures
        link_captures(s, from) == link_captures(s.take(n), from) + link_captures(s, n + 1),
    decreases n - from,
{
    let t = s.take(n);
    lemma_close_pos(s, from + 2);
    lemma_close_pos(t, from + 2);
    lemma_close_prefix(s, n, from + 2);
    if from == n {
        assert(!link_at(s, from));
        assert(link_captures(t, from) =~= Seq::<Seq<char>>::empty());
        assert(link_captures(s, from) == link_captures(s, from + 1));
    } else if link_at(s, from) {
        let k = close_pos(s, from + 2);
        assert(k + 2 <= n);
        assert(close_pos(t, from + 2) == k);
        assert(t[from] == s[from] && t[from + 1] == s[from + 1] && t[k + 1] == s[k + 1]);
        assert(link_at(t, from));
        assert(t.subrange(from + 2, k) =~= s.subrange(from + 2, k));
        lemma_caps_split(s, k + 2, n);
        assert(link_captures(s, from) =~= link_captures(t, from) + link_captures(s, n + 1));
    } else {
        if link_at(t, from) {
            let kt = close_pos(t, from + 2);
            assert(close_pos(s, from + 2) == kt);
            assert(t[from] == s[from] && t[from + 1] == s[from + 1] && t[kt + 1] == s[kt + 1]);
            assert(link_at(s, from));
        }
        lemma_caps_split(s, from + 1, n);
    }
}

/// Scanning is the same after dropping a prefix.
proof fn lemma_close_shift(s: Seq<char>, c: int, j: int)
    requires
        0 <= c <= j,
        c <= s.len(),
    ensures
        close_pos(s.skip(c), j - c) == close_pos(s, j) - c,
    decreases s.len() - j,
{
    if j < s.len() {
        assert(s.skip(c)[j - c] == s[j]);
        if s[j] != ']' {
            lemma_close_shift(s, c, j + 1);
        }
    }
}

proof fn lemma_caps_shift(s: Seq<char>, c: int, from: int)
    requires
        0 <= c <= from,
        c <= s.len(),
    ensures
        link_captures(s.skip(c), from - c) == link_captures(s, from),
    decreases s.len() - from,
{
    let u = s.skip(c);
    if from < s.len() {
        lemma_close_shift(s, c, from + 2);
        lemma_close_pos(s, from + 2);
        let k = close_pos(s, from + 2);
        if link_at(s, from) {
            assert(u[from - c] == s[from] && u[from - c + 1] == s[from + 1] && u[k - c + 1] == s[k + 1]);
            assert(link_at(u, from - c));
            assert(u.subrange(from - c + 2, k - c) =~= s.subrange(from + 2, k));
            lemma_caps_shift(s, c, k + 2);
        } else {
            if link_at(u, from - c) {
                assert(u[from - c] == s[from] && u[from - c + 1] == s[from + 1] && u[k - c + 1] == s[k + 1]);
            }
            lemma_caps_shift(s, c, from + 1);
        }
    }
}

/// The captures found from `from` hold no line break.
spec fn caps_single_line(s: Seq<char>, from: int) -> bool {
    forall|i: int| 0 <= i < link_captures(s, from).len() ==> !(#[trigger] link_captures(s, from)[i]).contains('\n')
}

proof fn lemma_no_span_newline(s: Seq<char>, from: int, n: int)
    requires
        0 <= from,
        0 <= n < s.len(),
        s[n] == '\n',
        caps_single_line(s, from),
    ensures
        no_span(s, from, n),
    decreases s.len() - from,
{
    if from < s.len() {
        lemma_close_pos(s, from + 2);
        if link_at(s, from) {
            let k = close_pos(s, from + 2);
            let cap = s.subrange(from + 2, k);
            assert(link_captures(s, from)[0] == cap);
            if from <= n && n < k + 2 {
                assert(from + 2 <= n && n < k);
                assert(cap[n - from - 2] == '\n');
                assert(cap.contains('\n'));
            }
            assert forall|i: int| 0 <= i < link_captures(s, k + 2).len() implies !(#[trigger] link_captures(
                s,
                k + 2,
            )[i]).contains('\n') by {
                assert(link_captures(s, from)[i + 1] == link_captures(s, k + 2)[i]);
            }
            lemma_no_span_newline(s, k + 2, n);
        } else {
            assert(link_captures(s, from) == link_captures(s, from + 1));
            lemma_no_span_newline(s, from + 1, n);
        }
    }
}

proof fn lemma_no_span_last(s: Seq<char>, from: int)
    requires
        0 <= from,
        s.len() > 0,
        s.last() != ']',
    ensures
        no_span(s, from, s.len() - 1),
    decreases s.len() - from,
{
    if from < s.len() {
        lemma_close_pos(s, from + 2);
        if link_at(s, from) {
            lemma_no_span_last(s, close_pos(s, from + 2) + 2);
        } else {
            lemma_no_span_last(s, from + 1);
        }
    }
}

/// The captures of each line, line after line.
spec fn caps_of_lines(ls: Seq<Seq<char>>) -> Seq<Seq<char>>
    decreases ls.len(),
{
    if ls.len() == 0 {
        Seq::empty()
    } else {
        caps_of_lines(ls.drop_last()) + link_captures(ls.last(), 0)
    }
}

proof fn lemma_caps_of_lines_add(a: Seq<Seq<char>>, b: Seq<Seq<char>>)
    ensures
        caps_of_lines(a + b) == caps_of_lines(a) + caps_of_lines(b),
    decreases b.len(),
{
    if b.len() == 0 {
        assert(a + b =~= a);
        assert(caps_of_lines(a) + caps_of_lines(b) =~= caps_of_lines(a));
    } else {
        assert((a + b).drop_last() =~= a + b.drop_last());
        lemma_caps_of_lines_add(a, b.drop_last());
        assert(caps_of_lines(a + b) =~= caps_of_lines(a) + caps_of_lines(b));
    }
}

proof fn lemma_caps_one(x: Seq<char>)
    ensures
        caps_of_lines(seq![x]) == link_captures(x, 0),
{
    let one = seq![x];
    assert(one.drop_last() =~= Seq::<Seq<char>>::empty());
    assert(one.last() == x);
    assert(caps_of_lines(one.drop_last()) =~= Seq::<Seq<char>>::empty());
    assert(caps_of_lines(one) =~= link_captures(x, 0));
}

/// When no link spans a line break, scanning the lines one by one finds
/// the links the whole text has, in order.
proof fn lemma_caps_by_lines(s: Seq<char>)
    requires
        caps_single_line(s, 0),
    ensures
        caps_of_lines(lines(s)) == link_captures(s, 0),
    decreases s.len(),
{
    if s.len() == 0 {
        assert(caps_of_lines(lines(s)) =~= Seq::<Seq<char>>::empty());
    } else {
        crate::text::lemma_newline_index(s);
        let i = crate::text::newline_index(s);
        if i >= s.len() {
            assert(lines(s) == seq![s]);
            lemma_caps_one(s);
        } else {
            let a = s.take(i);
            let b = s.skip(i + 1);
            lemma_no_span_newline(s, 0, i);
            lemma_caps_split(s, 0, i);
            lemma_caps_shift(s, i + 1, i + 1);
            assert(link_captures(b, 0) == link_captures(s, i + 1));
            assert(caps_single_line(b, 0)) by {
                let pre = link_captures(a, 0);
                assert forall|j: int| 0 <= j < link_captures(b, 0).len() implies !(#[trigger] link_captures(
                    b,
                    0,
                )[j]).contains('\n') by {
                    assert(link_captures(s, 0)[pre.len() + j] == link_captures(b, 0)[j]);
                }
            }
            lemma_caps_by_lines(b);
            let first = crate::text::strip_cr(a);
            if a.len() > 0 && a.last() == '\r' {
                lemma_no_span_last(a, 0);
                lemma_caps_split(a, 0, a.len() - 1);
                assert(a.take(a.len() - 1) =~= a.drop_last());
                assert(link_captures(a, a.len() as int) =~= Seq::<Seq<char>>::empty());
                assert(link_captures(first, 0) =~= link_captures(a, 0));
            }
            assert(link_captures(first, 0) == link_captures(a, 0));
            assert(lines(s) == seq![first] + lines(b));
            lemma_caps_of_lines_add(seq![first], lines(b));
            lemma_caps_one(first);
            assert(caps_of_lines(lines(s)) =~= link_captures(s, 0));
        }
    }
}

/// The link targets of some captures, empty ones dropped.
spec fn nonempty_targets(c: Seq<Seq<char>>) -> Seq<Seq<char>> {
    c.map_values(|raw: Seq<char>| link_target(raw)).filter(|t: Seq<char>| t.len() > 0)
}

proof fn lemma_line_slugs(l: Seq<char>)
    ensures
        line_links(l).map_values(|p: (Seq<char>, Seq<char>)| p.0) == nonempty_targets(link_captures(l, 0)),
{
    let f = link_captures(l, 0).map_values(|raw: Seq<char>| link_target(raw)).filter(
        |t: Seq<char>| t.len() > 0,
    );
    assert(line_links(l) == f.map_values(|t: Seq<char>| (t, l)));
    assert(line_links(l).map_values(|p: (Seq<char>, Seq<char>)| p.0) =~= f);
}

proof fn lemma_lines_slugs(ls: Seq<Seq<char>>)
    ensures
        lines_links(ls).map_values(|p: (Seq<char>, Seq<char>)| p.0) == nonempty_targets(caps_of_lines(ls)),
    decreases ls.len(),
{
    if ls.len() == 0 {
        assert(lines_links(ls).map_values(|p: (Seq<char>, Seq<char>)| p.0) =~= Seq::<Seq<char>>::empty());
        assert(caps_of_lines(ls) =~= Seq::<Seq<char>>::empty());
        assert(nonempty_targets(caps_of_lines(ls)) =~= Seq::<Seq<char>>::empty()) by {
            reveal_with_fuel(Seq::filter, 1);
        }
    } else {
        let dl = ls.drop_last();
        let l = ls.last();
        lemma_lines_slugs(dl);
        lemma_line_slugs(l);
        let pred = |t: Seq<char>| t.len() > 0;
        let x = caps_of_lines(dl).map_values(|raw: Seq<char>| link_target(raw));
        let y = link_captures(l, 0).map_values(|raw: Seq<char>| link_target(raw));
        assert(caps_of_lines(ls).map_values(|raw: Seq<char>| link_target(raw)) =~= x + y);
        Seq::filter_distributes_over_add(x, y, pred);
        assert(lines_links(ls).map_values(|p: (Seq<char>, Seq<char>)| p.0) =~= lines_links(dl).map_values(
            |p: (Seq<char>, Seq<char>)| p.0,
        ) + line_links(l).map_values(|p: (Seq<char>, Seq<char>)| p.0));
    }
}

proof fn lemma_filter_keeps_all(c: Seq<Seq<char>>)
    requires
        forall|i: int| 0 <= i < c.len() ==> (#[trigger] c[i]).len() > 0,
    ensures
        c.filter(|t: Seq<char>| t.len() > 0) == c,
    decreases c.len(),
{
    reveal_with_fuel(Seq::filter, 1);
    if c.len() > 0 {
        assert forall|i: int| 0 <= i < c.drop_last().len() implies (#[trigger] c.drop_last()[i]).len()
            > 0 by {
            assert(c.drop_last()[i] == c[i]);
        }
        lemma_filter_keeps_all(c.drop_last());
        assert(c.last() == c[c.len() - 1]);
        assert(c.drop_last().push(c.last()) =~= c);
    }
}

/// Reading a body's links line by line, as backlinks do, gives the body's
/// link targets: the targets `extract_link_lines` reports, with later
/// repeats removed, are the ones `extract_wiki_links` reports, in the same
/// order. This holds when no link spans a line break and none has an
/// empty target.
pub proof fn law_link_lines_match_links(body: Seq<char>)
    requires
        forall|i: int|
            0 <= i < link_captures(body, 0).len() ==> !(#[trigger] link_captures(body, 0)[i]).contains('\n')
                && link_target(link_captures(body, 0)[i]).len() > 0,
    ensures
        dedup(lines_links(lines(body)).map_values(|p: (Seq<char>, Seq<char>)| p.0)) == wiki_links(body),
{
    lemma_caps_by_lines(body);
    lemma_lines_slugs(lines(body));
    let ts = link_captures(body, 0).map_values(|raw: Seq<char>| link_target(raw));
    assert forall|i: int| 0 <= i < ts.len() implies (#[trigger] ts[i]).len() > 0 by {
        assert(ts[i] == link_target(link_captures(body, 0)[i]));
    }
    lemma_filter_keeps_all(ts);
}

// ───────────────────────── untouched sidecars ─────────────────────────

proof fn lemma_filter_all<A>(s: Seq<A>, pred: spec_fn(A) -> bool)
    requires
        forall|i: int| 0 <= i < s.len() ==> pred(#[trigger] s[i]),
    ensures
        s.filter(pred) == s,
    decreases s.len(),
{
    reveal_with_fuel(Seq::filter, 1);
    if s.len() > 0 {
        assert forall|i: int| 0 <= i < s.drop_last().len() implies pred(#[trigger] s.drop_last()[i]) by {
            assert(s.drop_last()[i] == s[i]);
        }
        lemma_filter_all(s.drop_last(), pred);
        assert(pred(s[s.len() - 1]));
        assert(s.drop_last().push(s.last()) =~= s);
    }
}

proof fn lemma_sources_for_none(es: Seq<(Seq<char>, SourceView)>, t: Seq<char>)
    requires
        forall|k: int| 0 <= k < es.len() ==> (#[trigger] es[k]).0 != t,
    ensures
        sources_for(es, t).len() == 0,
    decreases es.len(),
{
    reveal_with_fuel(Seq::filter, 2);
    if es.len() > 0 {
        let init = es.drop_last();
        let one = seq![es.last()];
        assert forall|k: int| 0 <= k < init.len() implies (#[trigger] init[k]).0 != t by {
            assert(init[k] == es[k]);
        }
        lemma_sources_for_none(init, t);
        assert(init + one == es);
        lemma_sources_for_add(init, one, t);
        assert(one.drop_last() =~= Seq::<(Seq<char>, SourceView)>::empty());
        assert(one.last() == es[es.len() - 1]);
        assert(sources_for(one, t).len() == 0);
    } else {
        assert(es.filter(|e: (Seq<char>, SourceView)| e.0 == t).len() == 0);
    }
}

/// A sidecar the update does not visit keeps its sources: when the page
/// stored as `src` does not link to `t` (or is gone) and none of the
/// sidecar's sources comes from it, updating for that page changes
/// nothing. So an update that visits the page's old and new targets
/// (`affected_slugs`) leaves every sidecar as `updated_sources` says.
pub proof fn law_untouched_sidecar_unchanged(
    existing: Seq<SourceView>,
    src: Seq<char>,
    t: Seq<char>,
    page: Option<Page>,
)
    requires
        forall|i: int| 0 <= i < existing.len() ==> (#[trigger] existing[i]).path != src,
        page matches Some(p) ==> !outbound(p).contains(t),
    ensures
        updated_sources_spec(existing, src, t, page) == existing,
{
    lemma_filter_all(existing, |s: SourceView| s.path != src);
    match page {
        Some(p) => {
            lemma_outbound_any_src(src, p);
            let es = page_entries(src, p);
            assert forall|i: int| 0 <= i < es.len() implies (#[trigger] es[i]).0 != t by {
                assert(es.map_values(|e: (Seq<char>, SourceView)| e.0)[i] == es[i].0);
                if es[i].0 == t {
                    assert(outbound(p)[i] == t);
                }
            }
            lemma_sources_for_none(es, t);
            assert(sources_for(es, t) =~= Seq::<SourceView>::empty());
            assert(existing + Seq::<SourceView>::empty() =~= existing);
        },
        None => {
            assert(existing + Seq::<SourceView>::empty() =~= existing);
        },
    }
}

// ───────────────────────── longest mention ─────────────────────────

/// The longest run wins: at token `i`, with at most `w` tokens tried, the
/// run taken is one the index holds (when any is taken), and no longer run
/// of at most `w` tokens from `i` is one the index holds.
pub proof fn law_longest_run_wins(
    idx: Map<Seq<char>, Seq<(Seq<char>, Seq<char>, Seq<char>)>>,
    l: Seq<char>,
    t: Seq<(int, int)>,
    i: int,
    w: int,
)
    ensures
        0 <= match_len(idx, l, t, i, w),
        w >= 0 ==> match_len(idx, l, t, i, w) <= w,
        match_len(idx, l, t, i, w) > 0 ==> hits(idx, phrase(l, t, i, match_len(idx, l, t, i, w))).len()
            > 0,
        forall|v: int|
            match_len(idx, l, t, i, w) < v <= w ==> (#[trigger] hits(idx, phrase(l, t, i, v))).len()
                == 0,
    decreases w,
{
    if w > 0 {
        law_longest_run_wins(idx, l, t, i, w - 1);
    }
}

/// Scanning a line at token `i` takes the longest run of at most
/// `MAX_WINDOW_TOKENS` tokens (and no more than are left) that the index
/// holds, reports the pages it names and goes on after the run; when no
/// such run starts at `i`, scanning goes on at the next token.
pub proof fn law_line_scan_takes_longest_run(
    idx: Map<Seq<char>, Seq<(Seq<char>, Seq<char>, Seq<char>)>>,
    l: Seq<char>,
    t: Seq<(int, int)>,
    i: int,
    line: int,
    self_slug: Seq<char>,
    w: int,
)
    requires
        0 <= i < t.len(),
    ensures
        ({
            let maxw = if t.len() - i < MAX_WINDOW_TOKENS { t.len() - i } else { MAX_WINDOW_TOKENS as int };
            (forall|v: int| 1 <= v <= maxw ==> (#[trigger] hits(idx, phrase(l, t, i, v))).len() == 0)
                ==> line_mentions(idx, l, t, i, line, self_slug) == line_mentions(
                idx,
                l,
                t,
                i + 1,
                line,
                self_slug,
            )
        }),
        ({
            let maxw = if t.len() - i < MAX_WINDOW_TOKENS { t.len() - i } else { MAX_WINDOW_TOKENS as int };
            (1 <= w <= maxw && hits(idx, phrase(l, t, i, w)).len() > 0 && (forall|v: int|
                w < v <= maxw ==> (#[trigger] hits(idx, phrase(l, t, i, v))).len() == 0))
                ==> line_mentions(idx, l, t, i, line, self_slug) == emit(
                hits(idx, phrase(l, t, i, w)),
                phrase(l, t, i, w),
                line,
                context(l, t[i].0, t[i + w - 1].1),
                self_slug,
            ) + line_mentions(idx, l, t, i + w, line, self_slug)
        }),
{
    let maxw = if t.len() - i < MAX_WINDOW_TOKENS { t.len() - i } else { MAX_WINDOW_TOKENS as int };
    law_longest_run_wins(idx, l, t, i, maxw);
    let m = match_len(idx, l, t, i, maxw);
    if forall|v: int| 1 <= v <= maxw ==> (#[trigger] hits(idx, phrase(l, t, i, v))).len() == 0 {
        if m > 0 {
            assert(hits(idx, phrase(l, t, i, m)).len() == 0);
        }
        assert(m == 0);
    }
    if 1 <= w <= maxw && hits(idx, phrase(l, t, i, w)).len() > 0 && (forall|v: int|
        w < v <= maxw ==> (#[trigger] hits(idx, phrase(l, t, i, v))).len() == 0) {
        if m < w {
            assert(hits(idx, phrase(l, t, i, w)).len() == 0);
        }
        if w < m {
            assert(hits(idx, phrase(l, t, i, m)).len() == 0);
        }
        assert(m == w);
    }
}

// ───────────────────────── new sections ─────────────────────────

/// A section that no heading names is added at the end of the body as a
/// level-2 heading (`## name`) after a blank line, holding the trimmed
/// content on lines of its own; the body before it loses only its trailing
/// blanks. Both appending and upserting do so.
pub proof fn law_new_section_is_level_two(body: Seq<char>, name: Seq<char>, content: Seq<char>)
    requires
        section_spec(body, name) is None,
        trim_end(content).len() > 0,
    ensures
        append_spec(body, name, content) == Some(
            (
                trim_end(body) + "\n\n"@ + ("## "@ + name) + "\n"@ + trim_end(content) + "\n"@,
                false,
            ),
        ),
        upsert_spec(body, name, content) == (
            trim_end(body) + "\n\n"@ + ("## "@ + name) + "\n"@ + trim_end(content) + "\n"@,
            false,
        ),
{
    let c = trim_end(content);
    assert(trim_end(body) + "\n\n## "@ + name + "\n"@ + (c + "\n"@) =~= trim_end(body) + "\n\n"@ + (
    "## "@ + name) + "\n"@ + c + "\n"@) by {
        reveal_strlit("\n\n## ");
        reveal_strlit("\n\n");
        reveal_strlit("## ");
    }
}

// ───────────────────────── orphans ─────────────────────────

/// The index, the log and journal pages are never reported as orphans.
pub proof fn law_special_pages_never_orphans(
    ps: Seq<LintPage>,
    all: Seq<LintPage>,
    cat: Option<Seq<char>>,
    cats: Seq<CategoryFiles>,
    index: Seq<Seq<char>>,
)
    ensures
        forall|k: int|
            0 <= k < orphan_findings(ps, all, cat, cats, index).len() ==> {
                let p = (#[trigger] orphan_findings(ps, all, cat, cats, index)[k]).0;
                &&& p != "index.md"@
                &&& p != "log.md"@
                &&& !(p.len() >= 9 && p.take(9) == "_journal/"@)
                &&& !(p.len() >= 9 && p.take(9) == "_journal\\"@)
            },
    decreases ps.len(),
{
    reveal_strlit("_journal/");
    reveal_strlit("_journal\\");
    if ps.len() > 0 {
        law_special_pages_never_orphans(ps.drop_last(), all, cat, cats, index);
        let r = orphan_findings(ps, all, cat, cats, index);
        let a = orphan_findings(ps.drop_last(), all, cat, cats, index);
        assert forall|k: int| 0 <= k < r.len() implies {
            let p = (#[trigger] r[k]).0;
            &&& p != "index.md"@
            &&& p != "log.md"@
            &&& !(p.len() >= 9 && p.take(9) == "_journal/"@)
            &&& !(p.len() >= 9 && p.take(9) == "_journal\\"@)
        } by {
            if k < a.len() {
                assert(r[k] == a[k]);
            } else {
                let p = r[k].0;
                assert(p == ps.last().rel_path@);
                if p.len() >= 9 && p.take(9) == "_journal/"@ {
                    assert forall|j: int| 0 <= j < 9 implies p[j] == "_journal/"@[j] by {
                        assert(p.take(9)[j] == p[j]);
                    }
                    assert(starts_with(p, "_journal/"@));
                }
                if p.len() >= 9 && p.take(9) == "_journal\\"@ {
                    assert forall|j: int| 0 <= j < 9 implies p[j] == "_journal\\"@[j] by {
                        assert(p.take(9)[j] == p[j]);
                    }
                    assert(starts_with(p, "_journal\\"@));
                }
            }
        }
    }
}

/// Every other page that is checked and that neither the index page nor
/// any checked page refers to is reported as an orphan.
pub proof fn law_unreferenced_pages_are_orphans(
    ps: Seq<LintPage>,
    all: Seq<LintPage>,
    cat: Option<Seq<char>>,
    cats: Seq<CategoryFiles>,
    index: Seq<Seq<char>>,
    k: int,
)
    requires
        0 <= k < ps.len(),
        considered(ps[k], cat),
        !referenced(all, cat, cats, index, ps[k].rel_path@),
        ps[k].rel_path@ != "index.md"@,
        ps[k].rel_path@ != "log.md"@,
        !(ps[k].rel_path@.len() >= 9 && ps[k].rel_path@.take(9) == "_journal/"@),
        !(ps[k].rel_path@.len() >= 9 && ps[k].rel_path@.take(9) == "_journal\\"@),
    ensures
        exists|j: int|
            0 <= j < orphan_findings(ps, all, cat, cats, index).len() && (#[trigger] orphan_findings(
                ps,
                all,
                cat,
                cats,
                index,
            )[j]).0 == ps[k].rel_path@,
    decreases ps.len(),
{
    reveal_strlit("_journal/");
    reveal_strlit("_journal\\");
    let p = ps[k].rel_path@;
    let init = ps.drop_last();
    let r = orphan_findings(ps, all, cat, cats, index);
    let a = orphan_findings(init, all, cat, cats, index);
    assert(r.len() >= a.len());
    assert forall|j: int| 0 <= j < a.len() implies r[j] == a[j] by {}
    if k < ps.len() - 1 {
        assert(init[k] == ps[k]);
        law_unreferenced_pages_are_orphans(init, all, cat, cats, index, k);
        let j = choose|j: int| 0 <= j < a.len() && (#[trigger] a[j]).0 == p;
        assert(r[j] == a[j]);
    } else {
        assert(ps.last() == ps[k]);
        assert(!crate::lint::exempt(p)) by {
            if starts_with(p, "_journal/"@) {
                assert(p.take(9) =~= "_journal/"@);
            }
            if starts_with(p, "_journal\\"@) {
                assert(p.take(9) =~= "_journal\\"@);
            }
        }
        let earlier = init.map_values(|q: LintPage| q.rel_path@);
        if earlier.contains(p) {
            let i = choose|i: int| 0 <= i < earlier.len() && earlier[i] == p;
            assert(init[i].rel_path@ == p);
            law_unreferenced_pages_are_orphans(init, all, cat, cats, index, i);
            let j = choose|j: int| 0 <= j < a.len() && (#[trigger] a[j]).0 == p;
            assert(r[j] == a[j]);
        } else {
            assert(r[a.len() as int].0 == p);
        }
    }
}

// ───────────────────────── freshness ─────────────────────────

/// Freshness bands: evergreen pages are always fresh; otherwise, with the
/// threshold `t` (30 days for fast decay, the default otherwise), a page
/// is stale past `t`, suspect past three quarters of `t` and up to `t`,
/// and fresh up to three quarters of `t`.
pub proof fn law_freshness_bands(decay: Seq<char>, age: int, default_days: u32)
    ensures
        decay == "evergreen"@ ==> freshness(decay, age, default_days) == FreshnessLevel::Fresh,
        decay != "evergreen"@ ==> {
            let t: int = if decay == "fast"@ { 30 } else { default_days as int };
            &&& (freshness(decay, age, default_days) == FreshnessLevel::Stale <==> age > t)
            &&& (freshness(decay, age, default_days) == FreshnessLevel::Suspect <==> 3 * t < 4 * age
                && age <= t)
            &&& (freshness(decay, age, default_days) == FreshnessLevel::Fresh <==> 4 * age <= 3 * t)
        },
{
    reveal_strlit("fast");
    reveal_strlit("evergreen");
    assert("fast"@ != "evergreen"@) by {
        assert("fast"@.len() != "evergreen"@.len());
    }
    let t: int = if decay == "fast"@ { 30 } else { default_days as int };
    assert(t >= 0);
    assert((age > t * 3 / 4) <==> (4 * age > 3 * t)) by (nonlinear_arith)
        requires t >= 0;
}

// ───────────────────────── affected slugs ─────────────────────────

/// The slugs an update visits are exactly those the page linked to before
/// or links to now, the old ones first and in their order.
pub proof fn law_affected_slugs_cover_old_and_new(old: Seq<Seq<char>>, new: Seq<Seq<char>>)
    ensures
        union_slugs(old, new).to_set() == old.to_set() + new.to_set(),
        old.is_prefix_of(union_slugs(old, new)),
        forall|j: int|
            old.len() <= j < union_slugs(old, new).len() ==> !old.contains(
                #[trigger] union_slugs(old, new)[j],
            ),
        forall|j: int, k: int|
            old.len() <= j < k < union_slugs(old, new).len() ==> #[trigger] union_slugs(old, new)[j]
                != #[trigger] union_slugs(old, new)[k],
    decreases new.len(),
{
    if new.len() == 0 {
        assert(new.to_set() =~= Set::<Seq<char>>::empty());
        assert(old.to_set() + new.to_set() =~= old.to_set());
    } else {
        let init = new.drop_last();
        law_affected_slugs_cover_old_and_new(old, init);
        let u = union_slugs(old, init);
        assert(new == init.push(new.last()));
        assert(new.to_set() =~= init.to_set().insert(new.last())) by {
            assert forall|x: Seq<char>| new.to_set().contains(x) <==> init.to_set().insert(new.last()).contains(x) by {
                if new.to_set().contains(x) {
                    let j = choose|j: int| 0 <= j < new.len() && new[j] == x;
                    if j < init.len() {
                        assert(init[j] == x);
                    }
                }
                if init.to_set().contains(x) && x != new.last() {
                    let j = choose|j: int| 0 <= j < init.len() && init[j] == x;
                    assert(new[j] == x);
                }
                if x == new.last() {
                    assert(new[new.len() - 1] == x);
                }
            }
        }
        if u.contains(new.last()) {
            assert(union_slugs(old, new) == u);
            assert(u.to_set().contains(new.last()));
            assert(union_slugs(old, new).to_set() =~= old.to_set() + new.to_set());
        } else {
            assert(union_slugs(old, new) == u.push(new.last()));
            assert(u.push(new.last()).to_set() =~= u.to_set().insert(new.last())) by {
                assert forall|x: Seq<char>| u.push(new.last()).to_set().contains(x) <==> u.to_set().insert(new.last()).contains(x) by {
                    let up = u.push(new.last());
                    if up.to_set().contains(x) {
                        let j = choose|j: int| 0 <= j < up.len() && up[j] == x;
                        if j < u.len() {
                            assert(u[j] == x);
                        }
                    }
                    if u.to_set().contains(x) {
                        let j = choose|j: int| 0 <= j < u.len() && u[j] == x;
                        assert(up[j] == x);
                    }
                    if x == new.last() {
                        assert(up[up.len() - 1] == x);
                    }
                }
            }
            assert(union_slugs(old, new).to_set() =~= old.to_set() + new.to_set());
            assert(old.is_prefix_of(u.push(new.last()))) by {
                assert forall|j: int| 0 <= j < old.len() implies u.push(new.last())[j] == old[j] by {
                    assert(u[j] == old[j]);
                }
            }
            let up = u.push(new.last());
            assert(!old.contains(new.last())) by {
                if old.contains(new.last()) {
                    let j = choose|j: int| 0 <= j < old.len() && old[j] == new.last();
                    assert(u[j] == old[j]);
                }
            }
            assert forall|j: int| old.len() <= j < up.len() implies !old.contains(#[trigger] up[j]) by {
                if j < u.len() {
                    assert(up[j] == u[j]);
                }
            }
            assert forall|j: int, k: int| old.len() <= j < k < up.len() implies #[trigger] up[j]
                != #[trigger] up[k] by {
                assert(up[j] == u[j]);
                if k < u.len() {
                    assert(up[k] == u[k]);
                } else {
                    assert(up[k] == new.last());
                    assert(u.contains(u[j]));
                }
            }
        }
    }
}

} // verus!
