//! The status summary of a wiki: pages per category and how fresh they are.

use crate::fs::{category_from_path, category_of};
use crate::git::{compute_freshness, freshness, FreshnessLevel};
use crate::order::{
    count_total, entry_before, entry_set, entry_view, entry_views, lemma_distinct_names_no_dups,
    lemma_total_same_set, sort_entries, tally, tally_has,
};
use crate::schema::WikiSchema;
use crate::text::{owned, views};
use vstd::prelude::*;

verus! {

/// What the status summary needs to know of one page file.
#[derive(Debug)]
pub struct PageFacts {
    /// The path relative to `wiki/`.
    pub rel_path: String,
    /// The page's `decay` field (`None` also when the page cannot be read).
    pub decay: Option<String>,
    /// Days since the file's last commit (`None` without git history).
    pub age_days: Option<i64>,
}

#[derive(Debug)]
pub struct WikiStatus {
    pub root: String,
    pub wiki_name: String,
    pub total_pages: usize,
    pub categories: Vec<CategoryStatus>,
    pub freshness: FreshnessDistribution,
    pub index_present: bool,
}

#[derive(Debug)]
pub struct CategoryStatus {
    pub name: String,
    pub page_count: usize,
}

#[derive(Debug)]
pub struct FreshnessDistribution {
    pub fresh: usize,
    pub suspect: usize,
    pub stale: usize,
    pub unknown: usize,
}

/// The category a page counts under: its directory, or `_uncategorized`.
pub open spec fn status_category(rel: Seq<char>) -> Seq<char> {
    match category_of(rel) {
        Some(c) => c,
        None => "_uncategorized"@,
    }
}

/// The freshness of a page: `None` without git history.
pub open spec fn page_level(p: PageFacts, default_days: u32) -> Option<FreshnessLevel> {
    match p.age_days {
        Some(a) => Some(
            freshness(
                match p.decay {
                    Some(d) => d@,
                    None => "normal"@,
                },
                a as int,
                default_days,
            ),
        ),
        None => None,
    }
}

/// How many of `ps` have freshness `lvl`.
pub open spec fn count_level(ps: Seq<PageFacts>, default_days: u32, lvl: Option<FreshnessLevel>) -> nat
    decreases ps.len(),
{
    if ps.len() == 0 {
        0
    } else {
        count_level(ps.drop_last(), default_days, lvl) + if page_level(ps.last(), default_days)
            == lvl {
            1nat
        } else {
            0nat
        }
    }
}

/// The categories of `ps`, in order.
pub open spec fn page_categories(ps: Seq<PageFacts>) -> Seq<Seq<char>> {
    ps.map_values(|p: PageFacts| status_category(p.rel_path@))
}

/// The (name, count) view of category rows.
pub open spec fn category_rows(cs: Seq<CategoryStatus>) -> Seq<(Seq<char>, nat)> {
    cs.map_values(|c: CategoryStatus| (c.name@, c.page_count as nat))
}

proof fn lemma_count_le(ps: Seq<PageFacts>, d: u32, lvl: Option<FreshnessLevel>)
    ensures
        count_level(ps, d, lvl) <= ps.len(),
    decreases ps.len(),
{
    if ps.len() > 0 {
        lemma_count_le(ps.drop_last(), d, lvl);
    }
}

/// The status summary of a wiki from the facts of its page files: the
/// page total, one row per category with its page count (most pages
/// first, ties by name; the counts add up to the total), and how many pages are fresh, suspect, stale or
/// without git history.
pub fn gather_status(root: &str, schema: &WikiSchema, pages: &Vec<PageFacts>, index_present: bool) -> (r:
    WikiStatus)
    ensures
        r.root@ == root@,
        r.wiki_name@ == schema.wiki.name@,
        r.total_pages == pages@.len(),
        r.index_present == index_present,
        forall|i: int, j: int|
            0 <= i < j < r.categories@.len() ==> entry_before(
                category_rows(r.categories@)[i],
                category_rows(r.categories@)[j],
            ),
        forall|e: (Seq<char>, nat)|
            category_rows(r.categories@).contains(e) <==> tally_has(page_categories(pages@), e),
        count_total(category_rows(r.categories@)) == r.total_pages,
        r.freshness.fresh == count_level(
            pages@,
            schema.wiki.default_review_days,
            Some(FreshnessLevel::Fresh),
        ),
        r.freshness.suspect == count_level(
            pages@,
            schema.wiki.default_review_days,
            Some(FreshnessLevel::Suspect),
        ),
        r.freshness.stale == count_level(
            pages@,
            schema.wiki.default_review_days,
            Some(FreshnessLevel::Stale),
        ),
        r.freshness.unknown == count_level(pages@, schema.wiki.default_review_days, None),
{
    let days = schema.wiki.default_review_days;
    let mut cats: Vec<String> = Vec::new();
    let mut fresh: usize = 0;
    let mut suspect: usize = 0;
    let mut stale: usize = 0;
    let mut unknown: usize = 0;
    let mut i: usize = 0;
    while i < pages.len()
        invariant
            i <= pages@.len(),
            views(cats@) == page_categories(pages@.take(i as int)),
            fresh == count_level(pages@.take(i as int), days, Some(FreshnessLevel::Fresh)),
            suspect == count_level(pages@.take(i as int), days, Some(FreshnessLevel::Suspect)),
            stale == count_level(pages@.take(i as int), days, Some(FreshnessLevel::Stale)),
            unknown == count_level(pages@.take(i as int), days, None),
        decreases pages@.len() - i,
    {
        let p = &pages[i];
        let ghost done = pages@.take(i as int);
        proof {
            assert(pages@.take(i + 1).drop_last() == done);
            assert(pages@.take(i + 1).last() == pages@[i as int]);
            lemma_count_le(done, days, Some(FreshnessLevel::Fresh));
            lemma_count_le(done, days, Some(FreshnessLevel::Suspect));
            lemma_count_le(done, days, Some(FreshnessLevel::Stale));
            lemma_count_le(done, days, None);
            reveal_strlit("_uncategorized");
            reveal_strlit("normal");
        }
        let c = match category_from_path(p.rel_path.as_str()) {
            Some(c) => c,
            None => owned("_uncategorized"),
        };
        let ghost before = cats@;
        cats.push(c);
        proof {
            assert(views(cats@) =~= views(before).push(c@));
            assert(page_categories(pages@.take(i + 1)) =~= page_categories(done).push(
                status_category(pages@[i as int].rel_path@),
            ));
        }
        match p.age_days {
            Some(age) => {
                let decay = match &p.decay {
                    Some(d) => d.as_str(),
                    None => "normal",
                };
                match compute_freshness(decay, age, days) {
                    FreshnessLevel::Fresh => fresh += 1,
                    FreshnessLevel::Suspect => suspect += 1,
                    FreshnessLevel::Stale => stale += 1,
                }
            },
            None => unknown += 1,
        }
        i += 1;
    }
    proof {
        assert(pages@.take(i as int) == pages@);
    }
    let counted = tally(&cats);
    let ghost cv = counted@;
    let sorted = sort_entries(counted);
    let mut rows: Vec<CategoryStatus> = Vec::new();
    let mut k: usize = 0;
    while k < sorted.len()
        invariant
            k <= sorted@.len(),
            category_rows(rows@) == sorted@.take(k as int).map_values(
                |e: (String, usize)| entry_view(e),
            ),
        decreases sorted@.len() - k,
    {
        let row = CategoryStatus { name: owned(sorted[k].0.as_str()), page_count: sorted[k].1 };
        let ghost before = rows@;
        rows.push(row);
        proof {
            assert(category_rows(rows@) =~= category_rows(before).push(entry_view(sorted@[k as int])));
            assert(sorted@.take(k + 1).map_values(|e: (String, usize)| entry_view(e)) =~= sorted@.take(
                k as int,
            ).map_values(|e: (String, usize)| entry_view(e)).push(entry_view(sorted@[k as int])));
        }
        k += 1;
    }
    proof {
        assert(sorted@.take(k as int) == sorted@);
        assert(category_rows(rows@) =~= entry_views(sorted@));
        lemma_distinct_names_no_dups(cv);
        lemma_distinct_names_no_dups(sorted@);
        lemma_total_same_set(entry_views(sorted@), entry_views(cv));
        assert(views(cats@).len() == cats@.len());
        assert forall|e: (Seq<char>, nat)|
            category_rows(rows@).contains(e) <==> tally_has(page_categories(pages@), e) by {
            assert(entry_set(sorted@).contains(e) <==> category_rows(rows@).contains(e));
            assert(entry_set(cv).contains(e) <==> tally_has(views(cats@), e));
        }
    }
    WikiStatus {
        root: owned(root),
        wiki_name: owned(schema.wiki.name.as_str()),
        total_pages: pages.len(),
        categories: rows,
        freshness: FreshnessDistribution { fresh, suspect, stale, unknown },
        index_present,
    }
}

} // verus!
