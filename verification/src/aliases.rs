//! The title/alias index: which pages a term refers to. Each page is
//! indexed under its title, its `aliases` and its file-name slug, all
//! normalized (lowercase, then Unicode NFC).

use crate::assoc::{find_key, has_key, key_pos, keys_unique, lemma_key_pos, lemma_push_key, lemma_update_value};
use crate::path::{file_stem, file_stem_of};
use crate::page::Page;
use crate::text::{chars_of, lowercase, nfc, owned, str_eq, string_of, to_lowercase, to_nfc, views};
use vstd::prelude::*;

verus! {

/// Directory (from the wiki root) of the alias-index sidecar files.
pub const ALIASES_DIR: &'static str = ".lw/aliases";

/// One page a term refers to.
#[derive(Debug, Clone, PartialEq, Eq)]
pub struct PageRef {
    /// The file stem, e.g. `transformer-architecture`.
    pub slug: String,
    /// The page title, casing kept.
    pub title: String,
    /// The path with its `wiki/` prefix.
    pub path: String,
}

/// The view of a page reference: (slug, title, path).
pub open spec fn ref_view(r: PageRef) -> (Seq<char>, Seq<char>, Seq<char>) {
    (r.slug@, r.title@, r.path@)
}

pub open spec fn ref_views(s: Seq<PageRef>) -> Seq<(Seq<char>, Seq<char>, Seq<char>)> {
    s.map_values(|r: PageRef| ref_view(r))
}

/// Normalized term → the pages it refers to, in the order they were added.
#[derive(Debug, Clone, PartialEq, Eq)]
pub struct AliasIndex {
    pub terms: Vec<(String, Vec<PageRef>)>,
}

/// The index as a map from term to page references.
pub open spec fn term_map(pairs: Seq<(String, Vec<PageRef>)>) -> Map<
    Seq<char>,
    Seq<(Seq<char>, Seq<char>, Seq<char>)>,
> {
    Map::new(|t: Seq<char>| has_key(pairs, t), |t: Seq<char>| ref_views(pairs[key_pos(pairs, t)].1@))
}

impl View for AliasIndex {
    type V = Map<Seq<char>, Seq<(Seq<char>, Seq<char>, Seq<char>)>>;

    open spec fn view(&self) -> Self::V {
        term_map(self.terms@)
    }
}

/// The normal form of a term: lowercased, then composed (NFC).
pub open spec fn norm(s: Seq<char>) -> Seq<char> {
    nfc(lowercase(s))
}

/// Normalize a term for indexing and lookup: lowercase, then Unicode NFC.
pub fn normalize(term: &str) -> (r: String)
    ensures
        r@ == norm(term@),
{
    let l = to_lowercase(term);
    to_nfc(l.as_str())
}

/// The terms a page is indexed under, before normalization: its title,
/// its aliases, and the stem of its file name.
pub open spec fn raw_terms(rel: Seq<char>, page: Page) -> Seq<Seq<char>> {
    seq![page.title@] + views(page.aliases@) + seq![
        match file_stem(rel) {
            Some(s) => s,
            None => Seq::empty(),
        },
    ]
}

/// `t` is one of the page's non-empty normalized terms.
pub open spec fn page_term(rel: Seq<char>, page: Page, t: Seq<char>) -> bool {
    t.len() > 0 && raw_terms(rel, page).map_values(|s: Seq<char>| norm(s)).contains(t)
}

/// The reference to the page at `rel` (relative to `wiki/`).
pub open spec fn page_ref(rel: Seq<char>, page: Page) -> (Seq<char>, Seq<char>, Seq<char>) {
    (
        match file_stem(rel) {
            Some(s) => s,
            None => Seq::empty(),
        },
        page.title@,
        "wiki/"@ + rel,
    )
}

/// `m` with a reference appended under each of the page's terms.
pub open spec fn with_page(
    m: Map<Seq<char>, Seq<(Seq<char>, Seq<char>, Seq<char>)>>,
    rel: Seq<char>,
    page: Page,
) -> Map<Seq<char>, Seq<(Seq<char>, Seq<char>, Seq<char>)>> {
    Map::new(
        |t: Seq<char>| m.contains_key(t) || page_term(rel, page, t),
        |t: Seq<char>|
            (if m.contains_key(t) {
                m[t]
            } else {
                Seq::empty()
            }) + if page_term(rel, page, t) {
                seq![page_ref(rel, page)]
            } else {
                Seq::empty()
            },
    )
}

/// Keeps the references that are not to `path`.
pub open spec fn elsewhere(path: Seq<char>) -> spec_fn((Seq<char>, Seq<char>, Seq<char>)) -> bool {
    |r: (Seq<char>, Seq<char>, Seq<char>)| r.2 != path
}

/// Keeps the references to `path`.
pub open spec fn at_path(path: Seq<char>) -> spec_fn((Seq<char>, Seq<char>, Seq<char>)) -> bool {
    |r: (Seq<char>, Seq<char>, Seq<char>)| r.2 == path
}

/// `m` without the references to `path`; terms left with none are dropped.
pub open spec fn without_path(
    m: Map<Seq<char>, Seq<(Seq<char>, Seq<char>, Seq<char>)>>,
    path: Seq<char>,
) -> Map<Seq<char>, Seq<(Seq<char>, Seq<char>, Seq<char>)>> {
    Map::new(
        |t: Seq<char>| m.contains_key(t) && m[t].filter(elsewhere(path)).len() > 0,
        |t: Seq<char>| m[t].filter(elsewhere(path)),
    )
}

/// The index of a list of (path relative to `wiki/`, page) pairs.
pub open spec fn alias_map(pages: Seq<(String, Page)>) -> Map<
    Seq<char>,
    Seq<(Seq<char>, Seq<char>, Seq<char>)>,
>
    decreases pages.len(),
{
    if pages.len() == 0 {
        Map::empty()
    } else {
        with_page(alias_map(pages.drop_last()), pages.last().0@, pages.last().1)
    }
}

fn clone_refs(v: &Vec<PageRef>) -> (r: Vec<PageRef>)
    ensures
        ref_views(r@) == ref_views(v@),
{
    let mut r: Vec<PageRef> = Vec::new();
    let mut i: usize = 0;
    while i < v.len()
        invariant
            i <= v@.len(),
            ref_views(r@) == ref_views(v@.take(i as int)),
        decreases v@.len() - i,
    {
        let p = PageRef {
            slug: owned(v[i].slug.as_str()),
            title: owned(v[i].title.as_str()),
            path: owned(v[i].path.as_str()),
        };
        let ghost before = r@;
        r.push(p);
        proof {
            assert(ref_views(r@) =~= ref_views(before).push(ref_view(v@[i as int])));
            assert(ref_views(v@.take(i + 1)) =~= ref_views(v@.take(i as int)).push(
                ref_view(v@[i as int]),
            ));
        }
        i += 1;
    }
    proof {
        assert(v@.take(i as int) == v@);
    }
    r
}

impl AliasIndex {
    /// Each term stored once, with at least one page.
    pub open spec fn wf(&self) -> bool {
        &&& keys_unique(self.terms@)
        &&& forall|i: int| 0 <= i < self.terms@.len() ==> #[trigger] self.terms@[i].1@.len() > 0
    }

    /// The index with no terms.
    pub fn new() -> (r: Self)
        ensures
            r.wf(),
            r@ == Map::<Seq<char>, Seq<(Seq<char>, Seq<char>, Seq<char>)>>::empty(),
    {
        let r = AliasIndex { terms: Vec::new() };
        proof {
            assert(r@ =~= Map::<Seq<char>, Seq<(Seq<char>, Seq<char>, Seq<char>)>>::empty());
        }
        r
    }

    /// The pages `term` refers to; the term is normalized first, so raw
    /// text can be passed.
    pub fn lookup(&self, term: &str) -> (r: &[PageRef])
        ensures
            ref_views(r@) == if self@.contains_key(norm(term@)) {
                self@[norm(term@)]
            } else {
                Seq::empty()
            },
    {
        let t = normalize(term);
        proof {
            lemma_key_pos(self.terms@, t@);
        }
        match find_key(&self.terms, t.as_str()) {
            Some(i) => self.terms[i].1.as_slice(),
            None => {
                let e: &[PageRef] = &[];
                proof {
                    assert(ref_views(e@) =~= Seq::empty());
                }
                e
            },
        }
    }

    /// Append `r` to the pages of `term`.
    fn add_ref(&mut self, term: String, r: PageRef)
        requires
            old(self).wf(),
        ensures
            final(self).wf(),
            final(self)@ == old(self)@.insert(
                term@,
                (if old(self)@.contains_key(term@) {
                    old(self)@[term@]
                } else {
                    Seq::empty()
                }).push(ref_view(r)),
            ),
    {
        let ghost before = self.terms@;
        proof {
            lemma_key_pos(before, term@);
        }
        match find_key(&self.terms, term.as_str()) {
            Some(p) => {
                let mut refs = clone_refs(&self.terms[p].1);
                let ghost old_refs = refs@;
                refs.push(r);
                let name = owned(self.terms[p].0.as_str());
                let ghost e = (name, refs);
                self.terms.set(p, (name, refs));
                proof {
                    lemma_update_value(before, p as int, e);
                    assert(ref_views(e.1@) =~= ref_views(old_refs).push(ref_view(r)));
                    assert forall|t: Seq<char>| #[trigger] has_key(self.terms@, t) implies ref_views(
                        self.terms@[key_pos(self.terms@, t)].1@,
                    ) == (if t == term@ {
                        term_map(before)[term@].push(ref_view(r))
                    } else {
                        term_map(before)[t]
                    }) by {
                        lemma_key_pos(before, t);
                    }
                    assert(self@ =~= term_map(before).insert(
                        term@,
                        term_map(before)[term@].push(ref_view(r)),
                    ));
                    assert forall|i: int| 0 <= i < self.terms@.len() implies #[trigger] self.terms@[i].1@.len()
                        > 0 by {
                        if i != p {
                            assert(self.terms@[i] == before[i]);
                        }
                    }
                }
            },
            None => {
                let mut refs: Vec<PageRef> = Vec::new();
                refs.push(r);
                let ghost e = (term, refs);
                self.terms.push((term, refs));
                proof {
                    lemma_push_key(before, e);
                    assert(ref_views(e.1@) =~= seq![ref_view(r)]);
                    assert forall|t: Seq<char>| #[trigger] has_key(self.terms@, t) implies ref_views(
                        self.terms@[key_pos(self.terms@, t)].1@,
                    ) == (if t == term@ {
                        seq![ref_view(r)]
                    } else {
                        term_map(before)[t]
                    }) by {
                        lemma_key_pos(before, t);
                    }
                    assert(self@ =~= term_map(before).insert(term@, seq![ref_view(r)]));
                    assert forall|i: int| 0 <= i < self.terms@.len() implies #[trigger] self.terms@[i].1@.len()
                        > 0 by {
                        if i < before.len() {
                            assert(self.terms@[i] == before[i]);
                        }
                    }
                }
            },
        }
    }

    /// Index the page at `rel` (relative to `wiki/`) under its terms.
    pub fn add_page(&mut self, rel: &str, page: &Page)
        requires
            old(self).wf(),
        ensures
            final(self).wf(),
            final(self)@ == with_page(old(self)@, rel@, *page),
    {
        let stem = match file_stem_of(chars_of(rel).as_slice()) {
            Some(s) => string_of(s.as_slice()),
            None => owned(""),
        };
        proof {
            reveal_strlit("");
            reveal_strlit("wiki/");
        }
        // Normalized terms in order: title, aliases, slug.
        let mut raw: Vec<String> = Vec::new();
        raw.push(normalize(page.title.as_str()));
        let mut a: usize = 0;
        while a < page.aliases.len()
            invariant
                a <= page.aliases@.len(),
                views(raw@) == (seq![page.title@] + views(page.aliases@.take(a as int))).map_values(
                    |s: Seq<char>| norm(s),
                ),
            decreases page.aliases@.len() - a,
        {
            let n = normalize(page.aliases[a].as_str());
            let ghost before = raw@;
            raw.push(n);
            proof {
                assert(views(raw@) =~= views(before).push(n@));
                assert(seq![page.title@] + views(page.aliases@.take(a + 1)) =~= (seq![page.title@]
                    + views(page.aliases@.take(a as int))).push(page.aliases@[a as int]@));
            }
            a += 1;
        }
        let ns = normalize(stem.as_str());
        let ghost before = raw@;
        raw.push(ns);
        proof {
            assert(page.aliases@.take(a as int) == page.aliases@);
            assert(views(raw@) =~= views(before).push(ns@));
            assert(stem@ == match file_stem(rel@) {
                Some(x) => x,
                None => Seq::<char>::empty(),
            });
            assert(views(raw@) =~= raw_terms(rel@, *page).map_values(|s: Seq<char>| norm(s)));
        }
        let ghost rv = views(raw@);
        let ghost m0 = self@;
        let ghost pr = page_ref(rel@, *page);
        let mut path = chars_of("wiki/");
        crate::text::push_all(&mut path, chars_of(rel).as_slice());
        let path = string_of(path.as_slice());
        let mut j: usize = 0;
        while j < raw.len()
            invariant
                j <= raw@.len(),
                rv == views(raw@),
                rv == raw_terms(rel@, *page).map_values(|s: Seq<char>| norm(s)),
                pr == page_ref(rel@, *page),
                stem@ == pr.0,
                path@ == pr.2,
                self.wf(),
                self@ == Map::new(
                    |t: Seq<char>| m0.contains_key(t) || (t.len() > 0 && rv.take(j as int).contains(t)),
                    |t: Seq<char>|
                        (if m0.contains_key(t) {
                            m0[t]
                        } else {
                            Seq::empty()
                        }) + if t.len() > 0 && rv.take(j as int).contains(t) {
                            seq![pr]
                        } else {
                            Seq::empty()
                        },
                ),
            decreases raw@.len() - j,
        {
            let t = raw[j].as_str();
            let mut seen = t.is_empty();
            let mut k: usize = 0;
            while k < j && !seen
                invariant
                    k <= j < raw@.len(),
                    rv == views(raw@),
                    t@ == rv[j as int],
                    seen == (rv[j as int].len() == 0 || exists|q: int| 0 <= q < k && rv[q] == rv[j as int]),
                decreases j - k,
            {
                let same = str_eq(raw[k].as_str(), t);
                proof {
                    assert(raw@[k as int]@ == rv[k as int]);
                    if same {
                        assert(rv[k as int] == rv[j as int]);
                    } else if !seen {
                        assert(!(exists|q: int| 0 <= q < k + 1 && rv[q] == rv[j as int])) by {
                            if exists|q: int| 0 <= q < k + 1 && rv[q] == rv[j as int] {
                                let q = choose|q: int| 0 <= q < k + 1 && rv[q] == rv[j as int];
                                assert(q != k);
                            }
                        }
                    }
                }
                if same {
                    seen = true;
                }
                k += 1;
            }
            proof {
                assert(rv.take(j + 1) =~= rv.take(j as int).push(rv[j as int]));
                let s1 = rv.take(j + 1);
                let s0 = rv.take(j as int);
                assert forall|t2: Seq<char>| s1.contains(t2) <==> (s0.contains(t2) || t2 == rv[j as int]) by {
                    if s1.contains(t2) {
                        let q = choose|q: int| 0 <= q < s1.len() && s1[q] == t2;
                        if q < j {
                            assert(s0[q] == t2);
                        }
                    }
                    if s0.contains(t2) {
                        let q = choose|q: int| 0 <= q < s0.len() && s0[q] == t2;
                        assert(s1[q] == t2);
                    }
                    if t2 == rv[j as int] {
                        assert(s1[j as int] == t2);
                    }
                }
                if !seen {
                    assert(!rv.take(j as int).contains(rv[j as int])) by {
                        if rv.take(j as int).contains(rv[j as int]) {
                            let q = choose|q: int| 0 <= q < j && rv.take(j as int)[q] == rv[j as int];
                            assert(rv[q] == rv[j as int]);
                        }
                    }
                } else if rv[j as int].len() > 0 {
                    let q = choose|q: int| 0 <= q < k && rv[q] == rv[j as int];
                    assert(rv.take(j as int)[q] == rv[j as int]);
                }
                assert(t@.len() == 0 <==> rv[j as int].len() == 0);
            }
            if !seen {
                let r = PageRef {
                    slug: owned(stem.as_str()),
                    title: owned(page.title.as_str()),
                    path: owned(path.as_str()),
                };
                let ghost mid = self@;
                self.add_ref(owned(t), r);
                proof {
                    assert(ref_view(r) == pr);
                    assert(self@ =~= Map::new(
                        |t2: Seq<char>|
                            m0.contains_key(t2) || (t2.len() > 0 && rv.take(j + 1).contains(t2)),
                        |t2: Seq<char>|
                            (if m0.contains_key(t2) {
                                m0[t2]
                            } else {
                                Seq::empty()
                            }) + if t2.len() > 0 && rv.take(j + 1).contains(t2) {
                                seq![pr]
                            } else {
                                Seq::empty()
                            },
                    ));
                }
            } else {
                proof {
                    assert(self@ =~= Map::new(
                        |t2: Seq<char>|
                            m0.contains_key(t2) || (t2.len() > 0 && rv.take(j + 1).contains(t2)),
                        |t2: Seq<char>|
                            (if m0.contains_key(t2) {
                                m0[t2]
                            } else {
                                Seq::empty()
                            }) + if t2.len() > 0 && rv.take(j + 1).contains(t2) {
                                seq![pr]
                            } else {
                                Seq::empty()
                            },
                    ));
                }
            }
            j += 1;
        }
        proof {
            assert(rv.take(j as int) == rv);
            assert(self@ =~= with_page(m0, rel@, *page));
        }
    }

    /// Drop every reference to `path` (a `wiki/`-prefixed page path); terms
    /// left with no page are removed.
    pub fn remove_path(&mut self, path: &str)
        requires
            old(self).wf(),
        ensures
            final(self).wf(),
            final(self)@ == without_path(old(self)@, path@),
    {
        let ghost m0 = self@;
        let ghost p0 = self.terms@;
        let ghost keep = elsewhere(path@);
        let mut old_terms: Vec<(String, Vec<PageRef>)> = Vec::new();
        std::mem::swap(&mut old_terms, &mut self.terms);
        proof {
            assert(old_terms@ == p0);
        }
        let mut out: Vec<(String, Vec<PageRef>)> = Vec::new();
        let mut i: usize = 0;
        while i < old_terms.len()
            invariant
                i <= old_terms@.len(),
                old_terms@ == p0,
                m0 == term_map(p0),
                keys_unique(p0),
                keep == elsewhere(path@),
                keys_unique(out@),
                forall|k: int| 0 <= k < out@.len() ==> #[trigger] out@[k].1@.len() > 0,
                forall|t: Seq<char>|
                    #[trigger] has_key(out@, t) <==> (exists|k: int|
                        0 <= k < i && p0[k].0@ == t && ref_views(p0[k].1@).filter(keep).len() > 0),
                forall|t: Seq<char>|
                    #[trigger] has_key(out@, t) ==> ref_views(out@[key_pos(out@, t)].1@) == ref_views(
                        p0[key_pos(p0, t)].1@,
                    ).filter(keep),
            decreases old_terms@.len() - i,
        {
            let refs = &old_terms[i].1;
            let mut kept: Vec<PageRef> = Vec::new();
            let mut q: usize = 0;
            while q < refs.len()
                invariant
                    q <= refs@.len(),
                    keep == elsewhere(path@),
                    ref_views(kept@) == ref_views(refs@.take(q as int)).filter(keep),
                decreases refs@.len() - q,
            {
                proof {
                    reveal_with_fuel(Seq::filter, 1);
                    assert(ref_views(refs@.take(q + 1)) =~= ref_views(refs@.take(q as int)).push(
                        ref_view(refs@[q as int]),
                    ));
                    assert(ref_views(refs@.take(q + 1)).drop_last() == ref_views(refs@.take(q as int)));
                }
                if !str_eq(refs[q].path.as_str(), path) {
                    let ghost before = kept@;
                    kept.push(
                        PageRef {
                            slug: owned(refs[q].slug.as_str()),
                            title: owned(refs[q].title.as_str()),
                            path: owned(refs[q].path.as_str()),
                        },
                    );
                    proof {
                        assert(ref_views(kept@) =~= ref_views(before).push(ref_view(refs@[q as int])));
                    }
                }
                q += 1;
            }
            proof {
                assert(refs@.take(q as int) == refs@);
                lemma_key_pos(p0, p0[i as int].0@);
                assert(key_pos(p0, p0[i as int].0@) == i) by {
                    let kp = key_pos(p0, p0[i as int].0@);
                    if kp != i {
                        assert(p0[kp].0@ != p0[i as int].0@);
                    }
                }
            }
            if kept.len() > 0 {
                let name = owned(old_terms[i].0.as_str());
                let ghost before = out@;
                let ghost e = (name, kept);
                proof {
                    assert(!has_key(before, name@)) by {
                        if has_key(before, name@) {
                            let k = choose|k: int|
                                0 <= k < i && p0[k].0@ == name@ && ref_views(p0[k].1@).filter(keep).len() > 0;
                            assert(p0[k].0@ == p0[i as int].0@);
                        }
                    }
                    lemma_push_key(before, e);
                }
                out.push((name, kept));
                proof {
                    assert forall|k: int| 0 <= k < out@.len() implies #[trigger] out@[k].1@.len() > 0 by {
                        if k < before.len() {
                            assert(out@[k] == before[k]);
                        }
                    }
                    assert forall|t: Seq<char>| #[trigger] has_key(out@, t) implies ref_views(
                        out@[key_pos(out@, t)].1@,
                    ) == ref_views(p0[key_pos(p0, t)].1@).filter(keep) by {
                        if t != name@ {
                            lemma_key_pos(before, t);
                        }
                    }
                    assert forall|t: Seq<char>| #[trigger] has_key(out@, t) <==> (exists|k: int|
                        0 <= k < i + 1 && p0[k].0@ == t && ref_views(p0[k].1@).filter(keep).len()
                            > 0) by {
                        if t == name@ {
                            assert(p0[i as int].0@ == t);
                        }
                    }
                }
            } else {
                proof {
                    assert forall|t: Seq<char>| #[trigger] has_key(out@, t) <==> (exists|k: int|
                        0 <= k < i + 1 && p0[k].0@ == t && ref_views(p0[k].1@).filter(keep).len()
                            > 0) by {
                        if exists|k: int|
                            0 <= k < i + 1 && p0[k].0@ == t && ref_views(p0[k].1@).filter(keep).len()
                                > 0 {
                            let k = choose|k: int|
                                0 <= k < i + 1 && p0[k].0@ == t && ref_views(p0[k].1@).filter(
                                    keep,
                                ).len() > 0;
                            if k == i {
                                assert(ref_views(kept@).len() == 0);
                            }
                        }
                    }
                }
            }
            i += 1;
        }
        self.terms = out;
        proof {
            assert forall|t: Seq<char>| #[trigger] self@.contains_key(t) == without_path(
                m0,
                path@,
            ).contains_key(t) by {
                lemma_key_pos(p0, t);
                if has_key(self.terms@, t) {
                    let k = choose|k: int|
                        0 <= k < i && p0[k].0@ == t && ref_views(p0[k].1@).filter(keep).len() > 0;
                    assert(key_pos(p0, t) == k) by {
                        let kp = key_pos(p0, t);
                        if kp != k {
                            assert(p0[kp].0@ != p0[k].0@);
                        }
                    }
                }
                if without_path(m0, path@).contains_key(t) {
                    assert(has_key(p0, t));
                    let kp = key_pos(p0, t);
                    assert(p0[kp].0@ == t);
                }
            }
            assert(self@ =~= without_path(m0, path@));
        }
    }
}

/// Build the index of the pages of a wiki, given as (path relative to
/// `wiki/`, page) pairs.
pub fn build_index(pages: &[(String, Page)]) -> (r: AliasIndex)
    ensures
        r.wf(),
        r@ == alias_map(pages@),
{
    let mut idx = AliasIndex::new();
    let mut i: usize = 0;
    while i < pages.len()
        invariant
            i <= pages@.len(),
            idx.wf(),
            idx@ == alias_map(pages@.take(i as int)),
        decreases pages@.len() - i,
    {
        proof {
            assert(pages@.take(i + 1).drop_last() == pages@.take(i as int));
            assert(pages@.take(i + 1).last() == pages@[i as int]);
        }
        idx.add_page(pages[i].0.as_str(), &pages[i].1);
        i += 1;
    }
    proof {
        assert(pages@.take(i as int) == pages@);
    }
    idx
}

/// Bring the index up to date for one page (relative to `wiki/`): its old
/// references are dropped, and when the page still exists it is indexed
/// anew under its current terms.
pub fn update_for_page(index: &mut AliasIndex, source_rel: &str, page: Option<&Page>)
    requires
        old(index).wf(),
    ensures
        final(index).wf(),
        final(index)@ == match page {
            Some(p) => with_page(without_path(old(index)@, "wiki/"@ + source_rel@), source_rel@, *p),
            None => without_path(old(index)@, "wiki/"@ + source_rel@),
        },
{
    let mut path = chars_of("wiki/");
    crate::text::push_all(&mut path, chars_of(source_rel).as_slice());
    let path = string_of(path.as_slice());
    proof {
        reveal_strlit("wiki/");
    }
    index.remove_path(path.as_str());
    match page {
        Some(p) => index.add_page(source_rel, p),
        None => {},
    }
}

} // verus!
