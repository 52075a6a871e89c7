//! Tag taxonomy: which pages carry which tag.

use crate::assoc::{find_key, has_key, key_pos, keys_unique, lemma_key_pos};
use crate::order::{
    entries_sorted, entry_before, entry_set, entry_view, lex_lt, names_distinct, sort_entries,
};
use crate::page::Page;
use crate::text::{clone_strings, views};
use vstd::prelude::*;

verus! {

/// Number of times `t` occurs in `s`.
pub open spec fn occ(s: Seq<Seq<char>>, t: Seq<char>) -> nat
    decreases s.len(),
{
    if s.len() == 0 {
        0
    } else {
        occ(s.drop_last(), t) + if s.last() == t {
            1nat
        } else {
            0nat
        }
    }
}

/// `title` repeated `n` times.
pub open spec fn repeat(title: Seq<char>, n: nat) -> Seq<Seq<char>> {
    Seq::new(n, |k: int| title)
}

/// The titles of the pages tagged `t`, in page order; a page that lists the
/// tag twice appears twice.
pub open spec fn titles_with(pages: Seq<Page>, t: Seq<char>) -> Seq<Seq<char>>
    decreases pages.len(),
{
    if pages.len() == 0 {
        Seq::empty()
    } else {
        titles_with(pages.drop_last(), t) + repeat(
            pages.last().title@,
            occ(views(pages.last().tags@), t),
        )
    }
}

/// Tag → page titles, as a map built from the stored pairs.
pub open spec fn tag_map(pairs: Seq<(String, Vec<String>)>) -> Map<Seq<char>, Seq<Seq<char>>> {
    Map::new(|t: Seq<char>| has_key(pairs, t), |t: Seq<char>| views(pairs[key_pos(pairs, t)].1@))
}

/// Every tag of `pages` mapped to the titles that carry it.
pub open spec fn taxonomy_of(pages: Seq<Page>) -> Map<Seq<char>, Seq<Seq<char>>> {
    Map::new(|t: Seq<char>| titles_with(pages, t).len() > 0, |t: Seq<char>| titles_with(pages, t))
}

/// Tags and the titles of the pages that carry them.
#[derive(Debug)]
pub struct Taxonomy {
    tag_to_pages: Vec<(String, Vec<String>)>,
}

impl View for Taxonomy {
    type V = Map<Seq<char>, Seq<Seq<char>>>;

    closed spec fn view(&self) -> Self::V {
        tag_map(self.tag_to_pages@)
    }
}

impl Taxonomy {
    /// Internal consistency: each tag is stored once, with at least one title.
    pub closed spec fn wf(&self) -> bool {
        &&& keys_unique(self.tag_to_pages@)
        &&& forall|i: int|
            0 <= i < self.tag_to_pages@.len() ==> #[trigger] self.tag_to_pages@[i].1@.len() > 0
    }

    proof fn lemma_view(&self, t: Seq<char>)
        requires
            self.wf(),
        ensures
            self@.contains_key(t) <==> has_key(self.tag_to_pages@, t),
            self@.contains_key(t) ==> self@[t] == views(
                self.tag_to_pages@[key_pos(self.tag_to_pages@, t)].1@,
            ),
            self@.contains_key(t) ==> self@[t].len() > 0,
    {
        lemma_key_pos(self.tag_to_pages@, t);
    }

    /// Collect every tag of `pages` with the titles of the pages carrying it.
    pub fn from_pages(pages: &[Page]) -> (r: Self)
        ensures
            r.wf(),
            r@ == taxonomy_of(pages@),
    {
        let mut pairs: Vec<(String, Vec<String>)> = Vec::new();
        let mut i: usize = 0;
        while i < pages.len()
            invariant
                i <= pages@.len(),
                keys_unique(pairs@),
                forall|k: int| 0 <= k < pairs@.len() ==> #[trigger] pairs@[k].1@.len() > 0,
                forall|t: Seq<char>|
                    #![trigger titles_with(pages@.take(i as int), t)]
                    (has_key(pairs@, t) <==> titles_with(pages@.take(i as int), t).len() > 0),
                forall|t: Seq<char>|
                    #![trigger titles_with(pages@.take(i as int), t)]
                    has_key(pairs@, t) ==> views(pairs@[key_pos(pairs@, t)].1@) == titles_with(
                        pages@.take(i as int),
                        t,
                    ),
            decreases pages@.len() - i,
        {
            let page = &pages[i];
            let ghost tags = views(page.tags@);
            let ghost done = pages@.take(i as int);
            let mut j: usize = 0;
            while j < page.tags.len()
                invariant
                    i < pages@.len(),
                    page == &pages@[i as int],
                    tags == views(page.tags@),
                    done == pages@.take(i as int),
                    j <= tags.len(),
                    keys_unique(pairs@),
                    forall|k: int| 0 <= k < pairs@.len() ==> #[trigger] pairs@[k].1@.len() > 0,
                    forall|t: Seq<char>|
                        #![trigger titles_with(done, t)]
                        (has_key(pairs@, t) <==> (titles_with(done, t) + repeat(
                            page.title@,
                            occ(tags.take(j as int), t),
                        )).len() > 0),
                    forall|t: Seq<char>|
                        #![trigger titles_with(done, t)]
                        has_key(pairs@, t) ==> views(pairs@[key_pos(pairs@, t)].1@) == titles_with(
                            done,
                            t,
                        ) + repeat(page.title@, occ(tags.take(j as int), t)),
                decreases tags.len() - j,
            {
                let tag = &page.tags[j];
                let ghost tg = tag@;
                let ghost old_pairs = pairs@;
                proof {
                    assert(tags.take(j + 1).drop_last() == tags.take(j as int));
                    assert(tags.take(j + 1).last() == tg);
                }
                match find_key(&pairs, tag.as_str()) {
                    Some(p) => {
                        let mut list = clone_strings(&pairs[p].1);
                        let title = page.title.clone();
                        let ghost old_list = views(list@);
                        list.push(title);
                        let key = pairs[p].0.clone();
                        pairs.set(p, (key, list));
                        proof {
                            assert(views(list@) =~= old_list.push(page.title@));
                            assert forall|t: Seq<char>| #[trigger]
                                has_key(pairs@, t) == has_key(old_pairs, t) by {
                                if has_key(pairs@, t) {
                                    let k = choose|k: int|
                                        0 <= k < pairs@.len() && #[trigger] pairs@[k].0@ == t;
                                    assert(old_pairs[k].0@ == t);
                                }
                                if has_key(old_pairs, t) {
                                    let k = choose|k: int|
                                        0 <= k < old_pairs.len() && #[trigger] old_pairs[k].0@
                                            == t;
                                    assert(pairs@[k].0@ == t);
                                }
                            }
                            assert forall|t: Seq<char>|
                                #[trigger] key_pos(pairs@, t) == key_pos(old_pairs, t) by {
                                lemma_key_pos(pairs@, t);
                                lemma_key_pos(old_pairs, t);
                                let a = key_pos(pairs@, t);
                                let b = key_pos(old_pairs, t);
                                if a < b {
                                    assert(pairs@[a].0@ == old_pairs[a].0@);
                                } else if b < a {
                                    assert(pairs@[b].0@ == old_pairs[b].0@);
                                }
                            }
                            assert(keys_unique(pairs@)) by {
                                assert forall|a: int, b: int|
                                    0 <= a < pairs@.len() && 0 <= b < pairs@.len() && a
                                        != b implies pairs@[a].0@ != pairs@[b].0@ by {
                                    assert(pairs@[a].0@ == old_pairs[a].0@);
                                    assert(pairs@[b].0@ == old_pairs[b].0@);
                                }
                            }
                            assert forall|k: int| 0 <= k < pairs@.len() implies #[trigger] pairs@[
                                k
                            ].1@.len() > 0 by {
                                if k != p {
                                    assert(pairs@[k] == old_pairs[k]);
                                }
                            }
                            lemma_key_pos(old_pairs, tg);
                            assert forall|t: Seq<char>|
                                #![trigger titles_with(done, t)]
                                has_key(pairs@, t) ==> views(pairs@[key_pos(pairs@, t)].1@)
                                    == titles_with(done, t) + repeat(
                                    page.title@,
                                    occ(tags.take(j + 1), t),
                                ) by {
                                if has_key(pairs@, t) {
                                    lemma_key_pos(pairs@, t);
                                    if t == tg {
                                        assert(repeat(page.title@, occ(tags.take(j + 1), t))
                                            =~= repeat(
                                            page.title@,
                                            occ(tags.take(j as int), t),
                                        ).push(page.title@));
                                        assert(titles_with(done, t) + repeat(
                                            page.title@,
                                            occ(tags.take(j + 1), t),
                                        ) =~= (titles_with(done, t) + repeat(
                                            page.title@,
                                            occ(tags.take(j as int), t),
                                        )).push(page.title@));
                                    } else {
                                        assert(key_pos(pairs@, t) != p);
                                    }
                                }
                            }
                        }
                    },
                    None => {
                        let mut list: Vec<String> = Vec::new();
                        let title = page.title.clone();
                        list.push(title);
                        let key = tag.clone();
                        pairs.push((key, list));
                        proof {
                            lemma_key_pos(old_pairs, tg);
                            assert(views(list@) =~= seq![page.title@]);
                            assert forall|t: Seq<char>| #[trigger]
                                has_key(pairs@, t) == (has_key(old_pairs, t) || t == tg) by {
                                if has_key(pairs@, t) {
                                    let k = choose|k: int|
                                        0 <= k < pairs@.len() && #[trigger] pairs@[k].0@ == t;
                                    if k < old_pairs.len() {
                                        assert(old_pairs[k].0@ == t);
                                    }
                                }
                                if has_key(old_pairs, t) {
                                    let k = choose|k: int|
                                        0 <= k < old_pairs.len() && #[trigger] old_pairs[k].0@
                                            == t;
                                    assert(pairs@[k].0@ == t);
                                }
                                if t == tg {
                                    assert(pairs@[old_pairs.len() as int].0@ == t);
                                }
                            }
                            assert(keys_unique(pairs@)) by {
                                assert forall|a: int, b: int|
                                    0 <= a < pairs@.len() && 0 <= b < pairs@.len() && a
                                        != b implies pairs@[a].0@ != pairs@[b].0@ by {
                                    if a < old_pairs.len() && b < old_pairs.len() {
                                        assert(pairs@[a] == old_pairs[a]);
                                        assert(pairs@[b] == old_pairs[b]);
                                    } else if a < old_pairs.len() {
                                        assert(pairs@[a] == old_pairs[a]);
                                    } else {
                                        assert(pairs@[b] == old_pairs[b]);
                                    }
                                }
                            }
                            assert forall|k: int| 0 <= k < pairs@.len() implies #[trigger] pairs@[
                                k
                            ].1@.len() > 0 by {
                                if k < old_pairs.len() {
                                    assert(pairs@[k] == old_pairs[k]);
                                }
                            }
                            assert forall|t: Seq<char>|
                                #![trigger titles_with(done, t)]
                                has_key(pairs@, t) ==> views(pairs@[key_pos(pairs@, t)].1@)
                                    == titles_with(done, t) + repeat(
                                    page.title@,
                                    occ(tags.take(j + 1), t),
                                ) by {
                                if has_key(pairs@, t) {
                                    lemma_key_pos(pairs@, t);
                                    lemma_key_pos(old_pairs, t);
                                    if t == tg {
                                        assert(key_pos(pairs@, t) == old_pairs.len()) by {
                                            let a = key_pos(pairs@, t);
                                            if a < old_pairs.len() {
                                                assert(old_pairs[a].0@ == t);
                                            }
                                        }
                                        assert(titles_with(done, t).len() == 0);
                                        assert(repeat(page.title@, occ(tags.take(j as int), t)).len()
                                            == 0);
                                        assert(repeat(page.title@, occ(tags.take(j + 1), t))
                                            =~= seq![page.title@]);
                                        assert(titles_with(done, t) + repeat(
                                            page.title@,
                                            occ(tags.take(j + 1), t),
                                        ) =~= seq![page.title@]);
                                    } else {
                                        assert(key_pos(pairs@, t) == key_pos(old_pairs, t)) by {
                                            let a = key_pos(pairs@, t);
                                            let b = key_pos(old_pairs, t);
                                            if a < b {
                                                assert(pairs@[a] == old_pairs[a]);
                                            } else if b < a {
                                                assert(pairs@[b] == old_pairs[b]);
                                            }
                                        }
                                        assert(pairs@[key_pos(pairs@, t)] == old_pairs[key_pos(
                                            old_pairs,
                                            t,
                                        )]);
                                    }
                                }
                            }
                        }
                    },
                }
                j += 1;
            }
            proof {
                assert(tags.take(j as int) == tags);
                assert(pages@.take(i + 1).drop_last() == done);
                assert(pages@.take(i + 1).last() == *page);
                assert forall|t: Seq<char>| #[trigger]
                    titles_with(pages@.take(i + 1), t) == titles_with(done, t) + repeat(
                        page.title@,
                        occ(tags.take(j as int), t),
                    ) by {
                    assert(pages@.take(i + 1).len() > 0);
                }
            }
            i += 1;
        }
        proof {
            assert(pages@.take(i as int) == pages@);
        }
        let r = Taxonomy { tag_to_pages: pairs };
        proof {
            assert(r@ =~= taxonomy_of(pages@));
        }
        r
    }

    /// Number of pages carrying `tag` (0 for an unknown tag).
    pub fn tag_count(&self, tag: &str) -> (r: usize)
        requires
            self.wf(),
        ensures
            r == if self@.contains_key(tag@) {
                self@[tag@].len()
            } else {
                0
            },
    {
        proof {
            self.lemma_view(tag@);
        }
        match find_key(&self.tag_to_pages, tag) {
            Some(i) => self.tag_to_pages[i].1.len(),
            None => 0,
        }
    }

    /// Titles of the pages carrying `tag`, in page order.
    pub fn pages_with_tag(&self, tag: &str) -> (r: Vec<String>)
        requires
            self.wf(),
        ensures
            views(r@) == if self@.contains_key(tag@) {
                self@[tag@]
            } else {
                Seq::empty()
            },
    {
        proof {
            self.lemma_view(tag@);
        }
        match find_key(&self.tag_to_pages, tag) {
            Some(i) => clone_strings(&self.tag_to_pages[i].1),
            None => Vec::new(),
        }
    }

    /// Each tag with its page count, in stored order.
    fn counts_unsorted(&self, zero: bool) -> (r: Vec<(String, usize)>)
        requires
            self.wf(),
        ensures
            names_distinct(r@),
            forall|x: (Seq<char>, nat)|
                entry_set(r@).contains(x) <==> (self@.contains_key(x.0) && x.1 == if zero {
                    0
                } else {
                    self@[x.0].len()
                }),
    {
        let mut r: Vec<(String, usize)> = Vec::new();
        let mut i: usize = 0;
        let ghost pairs = self.tag_to_pages@;
        while i < self.tag_to_pages.len()
            invariant
                pairs == self.tag_to_pages@,
                self.wf(),
                i <= pairs.len(),
                r@.len() == i,
                forall|k: int|
                    0 <= k < i ==> (#[trigger] r@[k]).0@ == pairs[k].0@ && r@[k].1 == if zero {
                        0
                    } else {
                        pairs[k].1@.len()
                    },
            decreases pairs.len() - i,
        {
            let name = self.tag_to_pages[i].0.clone();
            let n = if zero {
                0
            } else {
                self.tag_to_pages[i].1.len()
            };
            r.push((name, n));
            i += 1;
        }
        proof {
            assert forall|a: int, b: int|
                0 <= a < r@.len() && 0 <= b < r@.len() && a != b implies r@[a].0@ != r@[b].0@ by {
                assert(r@[a].0@ == pairs[a].0@);
                assert(r@[b].0@ == pairs[b].0@);
            }
            assert forall|x: (Seq<char>, nat)|
                entry_set(r@).contains(x) <==> (self@.contains_key(x.0) && x.1 == if zero {
                    0
                } else {
                    self@[x.0].len()
                }) by {
                self.lemma_view(x.0);
                lemma_key_pos(pairs, x.0);
                let ev = r@.map_values(|e: (String, usize)| entry_view(e));
                if entry_set(r@).contains(x) {
                    assert(ev.contains(x));
                    let k = choose|k: int| 0 <= k < ev.len() && #[trigger] ev[k] == x;
                    assert(pairs[k].0@ == x.0);
                    assert(key_pos(pairs, x.0) == k) by {
                        let p = key_pos(pairs, x.0);
                        if p < k {
                            assert(pairs[p].0@ == x.0);
                        }
                    }
                }
                if self@.contains_key(x.0) && x.1 == (if zero {
                    0
                } else {
                    self@[x.0].len()
                }) {
                    let k = key_pos(pairs, x.0);
                    assert(ev[k] == x);
                    assert(ev.contains(x));
                }
            }
        }
        r
    }

    /// Every tag, sorted ascending.
    pub fn all_tags(&self) -> (r: Vec<String>)
        requires
            self.wf(),
        ensures
            forall|i: int, j: int| 0 <= i < j < r@.len() ==> lex_lt(r@[i]@, r@[j]@),
            views(r@).to_set() == self@.dom(),
    {
        let entries = self.counts_unsorted(true);
        let sorted = sort_entries(entries);
        let mut r: Vec<String> = Vec::new();
        let mut i: usize = 0;
        while i < sorted.len()
            invariant
                i <= sorted@.len(),
                r@.len() == i,
                forall|k: int| 0 <= k < i ==> (#[trigger] r@[k])@ == sorted@[k].0@,
            decreases sorted@.len() - i,
        {
            r.push(sorted[i].0.clone());
            i += 1;
        }
        proof {
            assert forall|a: int, b: int| 0 <= a < b < r@.len() implies lex_lt(
                r@[a]@,
                r@[b]@,
            ) by {
                assert(entry_before(entry_view(sorted@[a]), entry_view(sorted@[b])));
                assert(sorted@[a].1 == 0) by {
                    let ev = sorted@.map_values(|e: (String, usize)| entry_view(e));
                    assert(ev[a] == entry_view(sorted@[a]));
                    assert(entry_set(sorted@).contains(ev[a]));
                }
                assert(sorted@[b].1 == 0) by {
                    let ev = sorted@.map_values(|e: (String, usize)| entry_view(e));
                    assert(ev[b] == entry_view(sorted@[b]));
                    assert(entry_set(sorted@).contains(ev[b]));
                }
            }
            assert forall|t: Seq<char>| views(r@).to_set().contains(t) <==> self@.dom().contains(
                t,
            ) by {
                let ev = sorted@.map_values(|e: (String, usize)| entry_view(e));
                if views(r@).to_set().contains(t) {
                    assert(views(r@).contains(t));
                    let k = choose|k: int| 0 <= k < views(r@).len() && #[trigger] views(r@)[k] == t;
                    assert(ev[k] == entry_view(sorted@[k]));
                    assert(ev.contains(ev[k]));
                    assert(entry_set(sorted@).contains(ev[k]));
                }
                if self@.dom().contains(t) {
                    assert(entry_set(sorted@).contains((t, 0nat)));
                    assert(ev.contains((t, 0nat)));
                    let k = choose|k: int| 0 <= k < ev.len() && #[trigger] ev[k] == (t, 0nat);
                    assert(views(r@)[k] == t);
                    assert(views(r@).contains(t));
                }
            }
            assert(views(r@).to_set() =~= self@.dom());
        }
        r
    }

    /// Every tag with its page count, most used first; ties by tag name.
    pub fn tag_counts(&self) -> (r: Vec<(String, usize)>)
        requires
            self.wf(),
        ensures
            entries_sorted(r@),
            names_distinct(r@),
            forall|x: (Seq<char>, nat)|
                entry_set(r@).contains(x) <==> (self@.contains_key(x.0) && x.1
                    == self@[x.0].len()),
    {
        let entries = self.counts_unsorted(false);
        sort_entries(entries)
    }
}

} // verus!
