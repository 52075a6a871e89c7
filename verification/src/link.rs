//! Wiki links: `[[target]]` and `[[target|display text]]` in page bodies,
//! and their resolution against the category directories of `wiki/`.

use crate::text::{
    chars_of, concat, eq_chars, find_char, slice_chars, string_of, trim, trim_chars,
    views,
};
use vstd::prelude::*;

verus! {

// ───────────────────────── the link grammar ─────────────────────────

/// First index at or after `from` holding `']'`, or `s.len()`.
pub open spec fn close_pos(s: Seq<char>, from: int) -> int
    decreases s.len() - from,
{
    if from >= s.len() {
        s.len() as int
    } else if s[from] == ']' {
        from
    } else {
        close_pos(s, from + 1)
    }
}

pub proof fn lemma_close_pos(s: Seq<char>, from: int)
    requires
        0 <= from,
    ensures
        from <= close_pos(s, from) || (from > s.len() && close_pos(s, from) == s.len()),
        close_pos(s, from) <= s.len(),
        close_pos(s, from) < s.len() ==> s[close_pos(s, from)] == ']',
        forall|j: int| from <= j < close_pos(s, from) ==> s[j] != ']',
    decreases s.len() - from,
{
    if from < s.len() && s[from] != ']' {
        lemma_close_pos(s, from + 1);
    }
}

/// A wiki link starts at `i`: `[[`, one or more characters other than
/// `]`, then `]]` (the regular expression `\[\[([^\]]+)\]\]` matched at
/// `i`).
pub open spec fn link_at(s: Seq<char>, i: int) -> bool {
    let k = close_pos(s, i + 2);
    &&& 0 <= i
    &&& i + 1 < s.len()
    &&& s[i] == '['
    &&& s[i + 1] == '['
    &&& k > i + 2
    &&& k + 1 < s.len()
    &&& s[k + 1] == ']'
}

/// The inner texts of the wiki links of `s` found scanning from `from`,
/// left to right, each search resuming after the previous link
/// (`Regex::captures_iter`).
pub open spec fn link_captures(s: Seq<char>, from: int) -> Seq<Seq<char>>
    decreases s.len() - from,
{
    if from < 0 || from >= s.len() {
        Seq::empty()
    } else if link_at(s, from) {
        let k = close_pos(s, from + 2);
        proof {
            lemma_close_pos(s, from + 2);
        }
        seq![s.subrange(from + 2, k)] + link_captures(s, k + 2)
    } else {
        link_captures(s, from + 1)
    }
}

/// The target named by the inner text of a link: the trimmed text, or the
/// trimmed part before the first `|`.
pub open spec fn link_target(raw: Seq<char>) -> Seq<char> {
    let t = trim(raw);
    if t.contains('|') {
        trim(t.take(crate::text::index_of(t, '|')))
    } else {
        t
    }
}

/// `s` with repeated elements removed, first occurrences kept in order.
pub open spec fn dedup(s: Seq<Seq<char>>) -> Seq<Seq<char>>
    decreases s.len(),
{
    if s.len() == 0 {
        Seq::empty()
    } else if s.drop_last().contains(s.last()) {
        dedup(s.drop_last())
    } else {
        dedup(s.drop_last()).push(s.last())
    }
}

/// The link targets of a body, each once, in order of first appearance.
pub open spec fn wiki_links(body: Seq<char>) -> Seq<Seq<char>> {
    dedup(link_captures(body, 0).map_values(|raw: Seq<char>| link_target(raw)))
}

// ───────────────────────── scanning ─────────────────────────

/// The inner texts of all wiki links of `s`.
pub fn captures_of(s: &[char]) -> (r: Vec<Vec<char>>)
    ensures
        r@.map_values(|w: Vec<char>| w@) == link_captures(s@, 0),
{
    let mut r: Vec<Vec<char>> = Vec::new();
    let mut pos: usize = 0;
    proof {
        assert(r@.map_values(|w: Vec<char>| w@) + link_captures(s@, 0) == link_captures(s@, 0));
    }
    while pos < s.len()
        invariant
            pos <= s@.len(),
            link_captures(s@, 0) == r@.map_values(|w: Vec<char>| w@) + link_captures(
                s@,
                pos as int,
            ),
        decreases s@.len() - pos,
    {
        let mut found = false;
        if pos + 1 < s.len() && s[pos] == '[' && s[pos + 1] == '[' {
            let k = match find_char(s, ']', pos + 2) {
                Some(k) => k,
                None => s.len(),
            };
            proof {
                lemma_close_pos(s@, pos + 2);
                let c = close_pos(s@, pos + 2);
                if c < k {
                    assert(s@[c] == ']');
                }
                if k < c {
                    assert(s@[k as int] == ']');
                }
            }
            if k > pos + 2 && k < s.len() && k + 1 < s.len() && s[k + 1] == ']' {
                let cap = slice_chars(s, pos + 2, k);
                let ghost before = r@;
                r.push(cap);
                proof {
                    assert(r@.map_values(|w: Vec<char>| w@) =~= before.map_values(
                        |w: Vec<char>| w@,
                    ).push(s@.subrange(pos + 2, k as int)));
                }
                pos = k + 2;
                found = true;
            }
        }
        if !found {
            pos += 1;
        }
    }
    proof {
        assert(link_captures(s@, pos as int) == Seq::<Seq<char>>::empty());
        assert(link_captures(s@, 0) == r@.map_values(|w: Vec<char>| w@));
    }
    r
}

/// The target of a link's inner text.
pub fn target_of(raw: &[char]) -> (r: Vec<char>)
    ensures
        r@ == link_target(raw@),
{
    let t = trim_chars(raw);
    match find_char(t.as_slice(), '|', 0) {
        Some(i) => {
            proof {
                crate::text::lemma_index_of_unique(t@, '|', i as int);
                assert(t@.contains('|'));
            }
            let head = slice_chars(t.as_slice(), 0, i);
            trim_chars(head.as_slice())
        },
        None => {
            proof {
                if t@.contains('|') {
                    let k = choose|k: int| 0 <= k < t@.len() && t@[k] == '|';
                }
            }
            t
        },
    }
}

/// `v` holds a vector with the characters `x`.
fn contains_chars(v: &Vec<Vec<char>>, x: &[char]) -> (r: bool)
    ensures
        r == v@.map_values(|w: Vec<char>| w@).contains(x@),
{
    let ghost vs = v@.map_values(|w: Vec<char>| w@);
    let mut i: usize = 0;
    while i < v.len()
        invariant
            i <= v@.len(),
            vs == v@.map_values(|w: Vec<char>| w@),
            forall|j: int| 0 <= j < i ==> vs[j] != x@,
        decreases v@.len() - i,
    {
        if eq_chars(v[i].as_slice(), x) {
            assert(vs[i as int] == x@);
            return true;
        }
        i += 1;
    }
    false
}

/// Keep the first occurrence of every element.
pub fn dedup_chars(v: &Vec<Vec<char>>) -> (r: Vec<Vec<char>>)
    ensures
        r@.map_values(|w: Vec<char>| w@) == dedup(v@.map_values(|w: Vec<char>| w@)),
{
    let ghost vs = v@.map_values(|w: Vec<char>| w@);
    let mut r: Vec<Vec<char>> = Vec::new();
    let mut i: usize = 0;
    while i < v.len()
        invariant
            i <= v@.len(),
            vs == v@.map_values(|w: Vec<char>| w@),
            r@.map_values(|w: Vec<char>| w@) == dedup(vs.take(i as int)),
            forall|x: Seq<char>| #[trigger]
                dedup(vs.take(i as int)).contains(x) == vs.take(i as int).contains(x),
        decreases v@.len() - i,
    {
        let ghost pre = vs.take(i as int);
        let ghost nxt = vs.take(i + 1);
        proof {
            assert(nxt.drop_last() == pre);
            assert(nxt.last() == vs[i as int]);
        }
        let seen = contains_chars(&r, v[i].as_slice());
        if !seen {
            let ghost before = r@;
            let w = slice_chars(v[i].as_slice(), 0, v[i].len());
            r.push(w);
            proof {
                assert(v@[i as int]@.subrange(0, v@[i as int]@.len() as int) == vs[i as int]);
                assert(r@.map_values(|w: Vec<char>| w@) =~= before.map_values(|w: Vec<char>| w@).push(
                    vs[i as int],
                ));
            }
        }
        proof {
            assert(seen == pre.contains(vs[i as int]));
            if !seen {
                assert(dedup(nxt) == dedup(pre).push(vs[i as int]));
            } else {
                assert(dedup(nxt) == dedup(pre));
            }
            assert forall|x: Seq<char>| #[trigger]
                dedup(nxt).contains(x) == nxt.contains(x) by {
                assert(dedup(pre).contains(x) == pre.contains(x));
                if nxt.contains(x) {
                    let k = choose|k: int| 0 <= k < nxt.len() && nxt[k] == x;
                    if k < i {
                        assert(pre[k] == x);
                        assert(pre.contains(x));
                        if !seen {
                            let d = dedup(pre);
                            let m = choose|m: int| 0 <= m < d.len() && d[m] == x;
                            assert(dedup(nxt)[m] == x);
                        }
                    } else {
                        if !seen {
                            assert(dedup(nxt).last() == x);
                        } else {
                            assert(pre.contains(x));
                        }
                    }
                }
                if dedup(nxt).contains(x) {
                    let d = dedup(nxt);
                    let m = choose|m: int| 0 <= m < d.len() && d[m] == x;
                    if !seen && m == d.len() - 1 {
                        assert(nxt[i as int] == x);
                    } else {
                        assert(dedup(pre)[m] == x);
                        assert(dedup(pre).contains(x));
                        let k = choose|k: int| 0 <= k < pre.len() && pre[k] == x;
                        assert(nxt[k] == x);
                    }
                }
            }
        }
        i += 1;
    }
    proof {
        assert(vs.take(i as int) == vs);
    }
    r
}

/// Every `[[target]]` of `body` (the part before `|` for
/// `[[target|display]]`), trimmed, each once, in order of first appearance.
pub fn extract_wiki_links(body: &str) -> (r: Vec<String>)
    ensures
        views(r@) == wiki_links(body@),
{
    let cs = chars_of(body);
    let caps = captures_of(cs.as_slice());
    let mut targets: Vec<Vec<char>> = Vec::new();
    let mut i: usize = 0;
    let ghost cv = caps@.map_values(|w: Vec<char>| w@);
    while i < caps.len()
        invariant
            i <= caps@.len(),
            cv == caps@.map_values(|w: Vec<char>| w@),
            targets@.map_values(|w: Vec<char>| w@) == cv.take(i as int).map_values(
                |raw: Seq<char>| link_target(raw),
            ),
        decreases caps@.len() - i,
    {
        let t = target_of(caps[i].as_slice());
        let ghost before = targets@;
        targets.push(t);
        i += 1;
        proof {
            assert(targets@.map_values(|w: Vec<char>| w@) =~= before.map_values(|w: Vec<char>| w@).push(
                link_target(cv[i - 1]),
            ));
            assert(cv.take(i as int).map_values(|raw: Seq<char>| link_target(raw)) =~= cv.take(
                (i - 1) as int,
            ).map_values(|raw: Seq<char>| link_target(raw)).push(link_target(cv[i - 1])));
        }
    }
    proof {
        assert(cv.take(i as int) == cv);
    }
    let uniq = dedup_chars(&targets);
    let mut r: Vec<String> = Vec::new();
    let mut j: usize = 0;
    let ghost uv = uniq@.map_values(|w: Vec<char>| w@);
    while j < uniq.len()
        invariant
            j <= uniq@.len(),
            uv == uniq@.map_values(|w: Vec<char>| w@),
            views(r@) == uv.take(j as int),
        decreases uniq@.len() - j,
    {
        let s = string_of(uniq[j].as_slice());
        let ghost before = r@;
        r.push(s);
        j += 1;
        proof {
            assert(views(r@) =~= views(before).push(uv[j - 1]));
            assert(uv.take(j as int) =~= uv.take((j - 1) as int).push(uv[j - 1]));
        }
    }
    proof {
        assert(uv.take(j as int) == uv);
    }
    r
}

// ───────────────────────── resolution ─────────────────────────

/// The markdown files found under one category directory of `wiki/`,
/// as paths relative to that directory (e.g. `transformer.md`).
#[derive(Debug, Clone)]
pub struct CategoryFiles {
    pub name: String,
    pub files: Vec<String>,
}

/// The file name a link target resolves to.
pub open spec fn target_file(target: Seq<char>) -> Seq<char> {
    target + ".md"@
}

/// Index of the first category whose files include `file`, or
/// `cats.len()`.
pub open spec fn first_cat_with(cats: Seq<CategoryFiles>, file: Seq<char>) -> int
    decreases cats.len(),
{
    if cats.len() == 0 {
        0
    } else if views(cats[0].files@).contains(file) {
        0
    } else {
        1 + first_cat_with(cats.drop_first(), file)
    }
}

/// Where a link target resolves: `<category>/<target>.md` for the first
/// category (in listing order) holding `<target>.md`.
pub open spec fn resolve_spec(target: Seq<char>, cats: Seq<CategoryFiles>) -> Option<Seq<char>> {
    let i = first_cat_with(cats, target_file(target));
    if 0 <= i < cats.len() {
        Some(cats[i].name@ + "/"@ + target_file(target))
    } else {
        None
    }
}

pub proof fn lemma_first_cat_with(cats: Seq<CategoryFiles>, file: Seq<char>)
    ensures
        0 <= first_cat_with(cats, file) <= cats.len(),
        first_cat_with(cats, file) < cats.len() ==> views(
            cats[first_cat_with(cats, file)].files@,
        ).contains(file),
        forall|j: int|
            0 <= j < first_cat_with(cats, file) ==> !views(#[trigger] cats[j].files@).contains(
                file,
            ),
    decreases cats.len(),
{
    if cats.len() > 0 && !views(cats[0].files@).contains(file) {
        lemma_first_cat_with(cats.drop_first(), file);
        assert forall|j: int| 0 <= j < first_cat_with(cats, file) implies !views(
            #[trigger] cats[j].files@,
        ).contains(file) by {
            if j > 0 {
                assert(cats[j] == cats.drop_first()[j - 1]);
            }
        }
    }
}

/// Whether `files` holds `file`.
fn has_file(files: &Vec<String>, file: &[char]) -> (r: bool)
    ensures
        r == views(files@).contains(file@),
{
    let mut i: usize = 0;
    while i < files.len()
        invariant
            i <= files@.len(),
            forall|j: int| 0 <= j < i ==> views(files@)[j] != file@,
        decreases files@.len() - i,
    {
        let f = chars_of(files[i].as_str());
        if eq_chars(f.as_slice(), file) {
            assert(views(files@)[i as int] == file@);
            return true;
        }
        i += 1;
    }
    false
}

/// Resolve a link target to `<category>/<target>.md`: the first category,
/// in listing order, whose files include `<target>.md`.
pub fn resolve_link(target: &str, cats: &Vec<CategoryFiles>) -> (r: Option<String>)
    ensures
        opt_chars(r) == resolve_spec(target@, cats@),
{
    let t = chars_of(target);
    let md = chars_of(".md");
    let file = concat(t.as_slice(), md.as_slice());
    proof {
        lemma_first_cat_with(cats@, file@);
    }
    let mut i: usize = 0;
    while i < cats.len()
        invariant
            i <= cats@.len(),
            file@ == target_file(target@),
            forall|j: int| 0 <= j < i ==> !views(#[trigger] cats@[j].files@).contains(file@),
            0 <= first_cat_with(cats@, file@) <= cats@.len(),
            first_cat_with(cats@, file@) < cats@.len() ==> views(
                cats@[first_cat_with(cats@, file@)].files@,
            ).contains(file@),
            forall|j: int|
                0 <= j < first_cat_with(cats@, file@) ==> !views(
                    #[trigger] cats@[j].files@,
                ).contains(file@),
        decreases cats@.len() - i,
    {
        if has_file(&cats[i].files, file.as_slice()) {
            let name = chars_of(cats[i].name.as_str());
            let slash = chars_of("/");
            let a = concat(name.as_slice(), slash.as_slice());
            let full = concat(a.as_slice(), file.as_slice());
            proof {
                let f = first_cat_with(cats@, file@);
                if f < i {
                    assert(views(cats@[f].files@).contains(file@));
                }
            }
            return Some(string_of(full.as_slice()));
        }
        i += 1;
    }
    None
}

/// The view of an optional string.
pub open spec fn opt_chars(o: Option<String>) -> Option<Seq<char>> {
    match o {
        Some(s) => Some(s@),
        None => None,
    }
}

/// The link targets of `body` that resolve to no page.
pub open spec fn broken_links(body: Seq<char>, cats: Seq<CategoryFiles>) -> Seq<Seq<char>> {
    wiki_links(body).filter(|t: Seq<char>| resolve_spec(t, cats) is None)
}

/// The link targets of `body` (each once, in order) that resolve to no
/// page of the listing.
pub fn find_broken_links(body: &str, cats: &Vec<CategoryFiles>) -> (r: Vec<String>)
    ensures
        views(r@) == broken_links(body@, cats@),
{
    let links = extract_wiki_links(body);
    let ghost lv = views(links@);
    let mut r: Vec<String> = Vec::new();
    let mut i: usize = 0;
    while i < links.len()
        invariant
            i <= links@.len(),
            lv == views(links@),
            lv == wiki_links(body@),
            views(r@) == lv.take(i as int).filter(|t: Seq<char>| resolve_spec(t, cats@) is None),
        decreases links@.len() - i,
    {
        let res = resolve_link(links[i].as_str(), cats);
        proof {
            assert(lv.take(i + 1).drop_last() == lv.take(i as int));
            assert(lv.take(i + 1).last() == lv[i as int]);
            reveal_with_fuel(Seq::filter, 1);
        }
        if res.is_none() {
            let ghost before = r@;
            r.push(links[i].clone());
            proof {
                assert(views(r@) =~= views(before).push(lv[i as int]));
            }
        }
        i += 1;
    }
    proof {
        assert(lv.take(i as int) == lv);
    }
    r
}

} // verus!
