//! Backlink index — answers "what links to this page?".
//!
//! A backlink source is a `[[wikilink]]` (with optional `|display`) in
//! another page's body, or an entry of another page's `related:` list.
//! The index is kept as one JSON sidecar per target slug under
//! `.lw/backlinks/`; this module computes what those sidecars hold.

use crate::assoc::{find_key, has_key, key_pos, keys_unique, lemma_key_pos, lemma_push_key, lemma_update_value};
use crate::link::{captures_of, link_captures, link_target, target_of};
use crate::page::Page;
use crate::path::{file_stem, file_stem_of, path_join, join_path};
use crate::text::{
    byte_len, char_bytes, lemma_byte_len_push, chars_of, concat, find_from, first_occurrence, lines, lines_of, occurs_at, owned,
    push_all, slice_chars, str_eq, string_of, views,
};
use vstd::prelude::*;

verus! {

/// Relative path (from the wiki root) of the sidecar directory.
pub const BACKLINKS_DIR: &'static str = ".lw/backlinks";

/// How a source page references a target.
#[derive(Debug, Clone, Copy, PartialEq, Eq)]
pub enum BacklinkKind {
    /// `[[target]]` or `[[target|display]]` in the body.
    Wikilink,
    /// An entry of the frontmatter `related:` list.
    Related,
}

/// One inbound reference to a target page.
#[derive(Debug, Clone)]
pub struct BacklinkSource {
    pub path: String,
    pub kind: BacklinkKind,
    pub context: Option<String>,
}

/// All inbound references to one target page.
#[derive(Debug, Clone)]
pub struct BacklinkRecord {
    pub target: String,
    pub sources: Vec<BacklinkSource>,
}

/// Plain view of a source.
pub struct SourceView {
    pub path: Seq<char>,
    pub kind: BacklinkKind,
    pub context: Option<Seq<char>>,
}

pub open spec fn source_view(s: BacklinkSource) -> SourceView {
    SourceView {
        path: s.path@,
        kind: s.kind,
        context: match s.context {
            Some(c) => Some(c@),
            None => None,
        },
    }
}

pub open spec fn source_views(s: Seq<BacklinkSource>) -> Seq<SourceView> {
    s.map_values(|x: BacklinkSource| source_view(x))
}

// ───────────────────────── links per line ─────────────────────────

/// The `(slug, line)` pairs of one line: each link target of the line that
/// is not empty, paired with the whole line.
pub open spec fn line_links(l: Seq<char>) -> Seq<(Seq<char>, Seq<char>)> {
    link_captures(l, 0).map_values(|raw: Seq<char>| link_target(raw)).filter(
        |t: Seq<char>| t.len() > 0,
    ).map_values(|t: Seq<char>| (t, l))
}

/// The `(slug, line)` pairs of a sequence of lines, in order.
pub open spec fn lines_links(ls: Seq<Seq<char>>) -> Seq<(Seq<char>, Seq<char>)>
    decreases ls.len(),
{
    if ls.len() == 0 {
        Seq::empty()
    } else {
        lines_links(ls.drop_last()) + line_links(ls.last())
    }
}

/// The views of the pairs.
pub open spec fn pair_views(v: Seq<(String, String)>) -> Seq<(Seq<char>, Seq<char>)> {
    v.map_values(|p: (String, String)| (p.0@, p.1@))
}

/// For every line of `body` and every wiki link on it, the link's slug
/// (the trimmed part before any `|`) and the whole line; links with an
/// empty slug are skipped. Links inside code fences count too.
pub fn extract_link_lines(body: &str) -> (r: Vec<(String, String)>)
    ensures
        pair_views(r@) == lines_links(lines(body@)),
{
    let cs = chars_of(body);
    let ls = lines_of(cs.as_slice());
    let ghost lv = lines(body@);
    let mut r: Vec<(String, String)> = Vec::new();
    let mut i: usize = 0;
    while i < ls.len()
        invariant
            i <= ls@.len(),
            ls@.len() == lv.len(),
            lv == lines(body@),
            forall|k: int| 0 <= k < ls@.len() ==> (#[trigger] ls@[k])@ == lv[k],
            pair_views(r@) == lines_links(lv.take(i as int)),
        decreases ls@.len() - i,
    {
        let line = &ls[i];
        let ghost l = lv[i as int];
        let caps = captures_of(line.as_slice());
        let ghost cv = caps@.map_values(|w: Vec<char>| w@);
        let ghost targets = cv.map_values(|raw: Seq<char>| link_target(raw));
        let ghost base = r@;
        let mut j: usize = 0;
        proof {
            assert(targets.take(0).filter(|t: Seq<char>| t.len() > 0) == Seq::<Seq<char>>::empty());
            assert(pair_views(r@) =~= pair_views(base) + targets.take(0).filter(
                |t: Seq<char>| t.len() > 0,
            ).map_values(|t: Seq<char>| (t, l)));
        }
        while j < caps.len()
            invariant
                j <= caps@.len(),
                line@ == l,
                cv == caps@.map_values(|w: Vec<char>| w@),
                cv == link_captures(l, 0),
                targets == cv.map_values(|raw: Seq<char>| link_target(raw)),
                pair_views(r@) == pair_views(base) + targets.take(j as int).filter(
                    |t: Seq<char>| t.len() > 0,
                ).map_values(|t: Seq<char>| (t, l)),
            decreases caps@.len() - j,
        {
            let t = target_of(caps[j].as_slice());
            proof {
                assert(targets.take(j + 1).drop_last() == targets.take(j as int));
                assert(targets.take(j + 1).last() == t@);
                reveal_with_fuel(Seq::filter, 1);
            }
            if t.len() > 0 {
                let ghost before = r@;
                let slug = string_of(t.as_slice());
                let whole = string_of(line.as_slice());
                r.push((slug, whole));
                proof {
                    assert(pair_views(r@) =~= pair_views(before).push((t@, l)));
                    assert(targets.take(j + 1).filter(|t: Seq<char>| t.len() > 0) == targets.take(
                        j as int,
                    ).filter(|t: Seq<char>| t.len() > 0).push(t@));
                    assert(targets.take(j + 1).filter(|t: Seq<char>| t.len() > 0).map_values(
                        |t: Seq<char>| (t, l),
                    ) =~= targets.take(j as int).filter(|t: Seq<char>| t.len() > 0).map_values(
                        |t: Seq<char>| (t, l),
                    ).push((t@, l)));
                }
            }
            j += 1;
        }
        proof {
            assert(targets.take(j as int) == targets);
            assert(lv.take(i + 1).drop_last() == lv.take(i as int));
            assert(lv.take(i + 1).last() == l);
        }
        i += 1;
    }
    proof {
        assert(lv.take(i as int) == lv);
    }
    r
}

// ───────────────────────── context snippets ─────────────────────────

/// Byte offset of the character at index `i`.
pub open spec fn offset(s: Seq<char>, i: int) -> nat {
    byte_len(s.take(i))
}

/// The index of the last character starting at or before byte `b`,
/// searching upward from `i`.
pub open spec fn last_start_at_or_before(s: Seq<char>, b: nat, i: int) -> int
    decreases s.len() - i,
{
    if i + 1 < s.len() && offset(s, i + 1) <= b {
        last_start_at_or_before(s, b, i + 1)
    } else {
        i
    }
}

/// The index of the first character starting at or after byte `b`,
/// searching upward from `i`; `s.len()` if there is none.
pub open spec fn first_start_at_or_after(s: Seq<char>, b: nat, i: int) -> int
    decreases s.len() - i,
{
    if i >= s.len() {
        s.len() as int
    } else if offset(s, i) >= b {
        i
    } else {
        first_start_at_or_after(s, b, i + 1)
    }
}

/// Half-width, in bytes, of the context window.
pub open spec fn radius() -> nat {
    80
}

/// The context snippet of `line` for `slug`: the whole line when it is
/// short (at most 160 bytes) or has no `[[slug`; otherwise the characters
/// from about 40 bytes before the first `[[slug` to about 40 bytes after
/// it, snapped to character boundaries, with `…` where the line was cut.
/// (A line too long for its byte offsets to fit in `usize` cannot be held
/// in memory; it is returned whole.)
pub open spec fn snippet_spec(line: Seq<char>, slug: Seq<char>) -> Seq<char> {
    let needle = "[["@ + slug;
    if line.len() == 0 {
        Seq::empty()
    } else if !crate::text::contains(line, needle) || byte_len(line) <= 2 * radius() {
        line
    } else if byte_len(line) + byte_len(needle) + radius() > usize::MAX {
        line
    } else {
        let pc = choose|pc: int| first_occurrence(line, needle, 0, pc);
        let pos = offset(line, pc);
        let start: nat = if pos >= radius() / 2 {
            (pos - radius() / 2) as nat
        } else {
            0
        };
        let end0 = pos + byte_len(needle) + radius() / 2;
        let end: nat = if end0 <= byte_len(line) {
            end0
        } else {
            byte_len(line)
        };
        let cs = last_start_at_or_before(line, start, 0);
        let ce = first_start_at_or_after(line, end, 0);
        let mid = line.subrange(cs, ce);
        let pre = if cs > 0 {
            seq!['…'] + mid
        } else {
            mid
        };
        if ce < line.len() {
            pre.push('…')
        } else {
            pre
        }
    }
}

pub proof fn lemma_offset_monotone(s: Seq<char>, i: int, j: int)
    requires
        0 <= i <= j <= s.len(),
    ensures
        offset(s, i) <= offset(s, j),
        i < j ==> offset(s, i) < offset(s, j),
    decreases j - i,
{
    if i < j {
        lemma_offset_monotone(s, i, j - 1);
        assert(s.take(j).drop_last() == s.take(j - 1));
    }
}

/// Byte offsets of every character boundary of `s`: `r[i]` is the offset
/// of character `i`, and `r[s.len()]` the byte length; `None` when the
/// byte length does not fit in `usize`.
fn offsets_of(s: &[char]) -> (r: Option<Vec<usize>>)
    ensures
        r is None ==> byte_len(s@) > usize::MAX,
        r matches Some(v) ==> v@.len() == s@.len() + 1 && forall|i: int|
            0 <= i <= s@.len() ==> v@[i] == offset(s@, i),
{
    let mut r: Vec<usize> = Vec::new();
    r.push(0);
    let mut acc: usize = 0;
    let mut i: usize = 0;
    proof {
        assert(s@.take(0) == Seq::<char>::empty());
    }
    while i < s.len()
        invariant
            i <= s@.len(),
            r@.len() == i + 1,
            acc == offset(s@, i as int),
            forall|k: int| 0 <= k <= i ==> r@[k] == offset(s@, k),
        decreases s@.len() - i,
    {
        proof {
            assert(s@.take(i + 1) == s@.take(i as int).push(s@[i as int]));
            lemma_byte_len_push(s@.take(i as int), s@[i as int]);
        }
        let b = char_bytes(s[i]);
        if acc > usize::MAX - b {
            proof {
                lemma_offset_monotone(s@, i + 1, s@.len() as int);
                assert(s@.take(s@.len() as int) == s@);
            }
            return None;
        }
        acc = acc + b;
        r.push(acc);
        i += 1;
    }
    Some(r)
}

/// Index of the last character of `l` starting at or before byte `b`.
fn last_start(l: &[char], offs: &Vec<usize>, b: usize) -> (cs: usize)
    requires
        l@.len() > 0,
        offs@.len() == l@.len() + 1,
        forall|i: int| 0 <= i <= l@.len() ==> offs@[i] == offset(l@, i),
    ensures
        cs < l@.len(),
        cs == last_start_at_or_before(l@, b as nat, 0),
        offset(l@, cs as int) <= b,
{
    let mut cs: usize = 0;
    proof {
        assert(l@.take(0) == Seq::<char>::empty());
    }
    while cs < l.len() - 1 && offs[cs + 1] <= b
        invariant
            cs < l@.len(),
            offs@.len() == l@.len() + 1,
            forall|i: int| 0 <= i <= l@.len() ==> offs@[i] == offset(l@, i),
            offset(l@, cs as int) <= b,
            last_start_at_or_before(l@, b as nat, 0) == last_start_at_or_before(
                l@,
                b as nat,
                cs as int,
            ),
        decreases l@.len() - cs,
    {
        cs += 1;
    }
    cs
}

/// Index of the first character of `l` starting at or after byte `b`,
/// or `l.len()`.
fn first_start(l: &[char], offs: &Vec<usize>, b: usize) -> (ce: usize)
    requires
        offs@.len() == l@.len() + 1,
        forall|i: int| 0 <= i <= l@.len() ==> offs@[i] == offset(l@, i),
    ensures
        ce <= l@.len(),
        ce == first_start_at_or_after(l@, b as nat, 0),
        ce < l@.len() ==> offset(l@, ce as int) >= b,
{
    let mut ce: usize = 0;
    while ce < l.len() && offs[ce] < b
        invariant
            ce <= l@.len(),
            offs@.len() == l@.len() + 1,
            forall|i: int| 0 <= i <= l@.len() ==> offs@[i] == offset(l@, i),
            first_start_at_or_after(l@, b as nat, 0) == first_start_at_or_after(
                l@,
                b as nat,
                ce as int,
            ),
        decreases l@.len() - ce,
    {
        ce += 1;
    }
    ce
}

/// `l[cs..ce]` with `…` before it when `cs > 0` and after it when
/// `ce < l.len()`.
fn window(l: &[char], cs: usize, ce: usize) -> (r: Vec<char>)
    requires
        cs <= ce <= l@.len(),
    ensures
        r@ == ({
            let mid = l@.subrange(cs as int, ce as int);
            let pre = if cs > 0 {
                seq!['…'] + mid
            } else {
                mid
            };
            if ce < l@.len() {
                pre.push('…')
            } else {
                pre
            }
        }),
{
    let mut out: Vec<char> = Vec::new();
    if cs > 0 {
        out.push('…');
    }
    let mid = slice_chars(l, cs, ce);
    push_all(&mut out, mid.as_slice());
    if ce < l.len() {
        out.push('…');
    }
    proof {
        let m = l@.subrange(cs as int, ce as int);
        if cs > 0 {
            assert(seq!['…'] + m =~= seq!['…'] + m);
        } else {
            assert(Seq::<char>::empty() + m =~= m);
        }
    }
    out
}

/// The first occurrence found by `find_from` is the one `choose` picks.
proof fn lemma_first_occurrence_unique(s: Seq<char>, pat: Seq<char>, p: int)
    requires
        first_occurrence(s, pat, 0, p),
    ensures
        (choose|q: int| first_occurrence(s, pat, 0, q)) == p,
{
    let q = choose|q: int| first_occurrence(s, pat, 0, q);
    assert(first_occurrence(s, pat, 0, q));
    if q < p {
        assert(!occurs_at(s, pat, q));
    }
    if p < q {
        assert(!occurs_at(s, pat, p));
    }
}

/// A context snippet of `line` centred on the first `[[slug`: the whole
/// line when it is at most 160 bytes long or has no such link, otherwise a
/// window of about 80 bytes around the match with `…` marking the cuts.
pub fn snippet_for(line: &str, slug: &str) -> (r: String)
    ensures
        r@ == snippet_spec(line@, slug@),
{
    let l = chars_of(line);
    if l.len() == 0 {
        return String::new();
    }
    let open = chars_of("[[");
    let s = chars_of(slug);
    let needle = concat(open.as_slice(), s.as_slice());
    proof {
        reveal_strlit("[[");
        assert(needle@.take(needle@.len() as int) == needle@);
    }
    let found = find_from(l.as_slice(), needle.as_slice(), 0);
    let pc = match found {
        None => {
            proof {
                if crate::text::contains(l@, needle@) {
                    let k = choose|k: int| occurs_at(l@, needle@, k);
                    assert(!occurs_at(l@, needle@, k));
                }
            }
            return string_of(l.as_slice());
        },
        Some(p) => p,
    };
    proof {
        assert(l@.take(l@.len() as int) == l@);
        assert(crate::text::contains(l@, needle@));
        lemma_offset_monotone(needle@, 0, needle@.len() as int);
        lemma_offset_monotone(l@, 0, l@.len() as int);
    }
    let offs = match offsets_of(l.as_slice()) {
        Some(o) => o,
        None => return string_of(l.as_slice()),
    };
    let total = offs[l.len()];
    if total <= 160 {
        return string_of(l.as_slice());
    }
    let nb = match offsets_of(needle.as_slice()) {
        Some(o) => o,
        None => return string_of(l.as_slice()),
    };
    proof {
        lemma_first_occurrence_unique(l@, needle@, pc as int);
        lemma_offset_monotone(l@, pc as int, l@.len() as int);
    }
    let pos = offs[pc];
    let start = if pos >= 40 {
        pos - 40
    } else {
        0
    };
    let needle_bytes = nb[needle.len()];
    proof {
        assert(needle@.take(needle@.len() as int) == needle@);
    }
    if needle_bytes > usize::MAX - 80 || total > usize::MAX - 80 - needle_bytes {
        return string_of(l.as_slice());
    }
    let end = if pos + needle_bytes + 40 <= total {
        pos + needle_bytes + 40
    } else {
        total
    };
    let cs = last_start(l.as_slice(), &offs, start);
    let ce = first_start(l.as_slice(), &offs, end);
    proof {
        assert(l@.take(l@.len() as int) == l@);
        if ce < cs {
            lemma_offset_monotone(l@, ce as int, cs as int);
        }
    }
    let out = window(l.as_slice(), cs, ce);
    string_of(out.as_slice())
}

// ───────────────────────── paths ─────────────────────────

/// The slug of a page path relative to `wiki/` (its file stem), e.g.
/// `architecture/foo.md` → `foo`; `None` when the path has no stem.
pub open spec fn slug_of_path(rel: Seq<char>) -> Option<Seq<char>> {
    match file_stem(rel) {
        Some(s) => if s.len() > 0 {
            Some(s)
        } else {
            None
        },
        None => None,
    }
}

/// Derive the slug from a path relative to `wiki/`.
pub fn slug_from_wiki_path(rel_path: &str) -> (r: Option<String>)
    ensures
        match r {
            Some(s) => slug_of_path(rel_path@) == Some(s@),
            None => slug_of_path(rel_path@) is None,
        },
{
    let cs = chars_of(rel_path);
    match file_stem_of(cs.as_slice()) {
        Some(s) => {
            if s.len() == 0 {
                None
            } else {
                Some(string_of(s.as_slice()))
            }
        },
        None => None,
    }
}

/// Path of the sidecar file for a target slug.
pub fn sidecar_path(wiki_root: &str, target: &str) -> (r: String)
    ensures
        r@ == path_join(path_join(wiki_root@, BACKLINKS_DIR@), target@ + ".json"@),
{
    let dir = join_path(wiki_root, BACKLINKS_DIR);
    let t = chars_of(target);
    let ext = chars_of(".json");
    let name = concat(t.as_slice(), ext.as_slice());
    let name_s = string_of(name.as_slice());
    join_path(dir.as_str(), name_s.as_str())
}

} // verus!

verus! {

// ───────────────────────── the entries of a page ─────────────────────────

/// The source path stored for a page at `rel` (relative to `wiki/`):
/// `wiki/` followed by the path with `\` turned into `/`.
pub open spec fn source_path_of(rel: Seq<char>) -> Seq<char> {
    "wiki/"@ + rel.map_values(|c: char| if c == '\\' { '/' } else { c })
}

/// The inbound entries that the `related:` list of a page at `src` adds:
/// one per entry that has a file stem, keyed by that stem.
pub open spec fn related_entries(src: Seq<char>, rel: Seq<Seq<char>>) -> Seq<(Seq<char>, SourceView)> {
    rel.filter(|r: Seq<char>| file_stem(r) is Some).map_values(
        |r: Seq<char>|
            (file_stem(r)->0, SourceView { path: src, kind: BacklinkKind::Related, context: None }),
    )
}

/// The inbound entries contributed by the body links of a page at `src`.
pub open spec fn link_entries(src: Seq<char>, body: Seq<char>) -> Seq<(Seq<char>, SourceView)> {
    lines_links(lines(body)).map_values(
        |p: (Seq<char>, Seq<char>)|
            (
                p.0,
                SourceView {
                    path: src,
                    kind: BacklinkKind::Wikilink,
                    context: Some(snippet_spec(p.1, p.0)),
                },
            ),
    )
}

/// The related list of a page (empty when absent).
pub open spec fn related_list(page: Page) -> Seq<Seq<char>> {
    match page.related {
        Some(v) => views(v@),
        None => Seq::empty(),
    }
}

/// All inbound entries a page at `src` contributes: body links first (line
/// by line), then `related:` entries.
pub open spec fn page_entries(src: Seq<char>, page: Page) -> Seq<(Seq<char>, SourceView)> {
    link_entries(src, page.body@) + related_entries(src, related_list(page))
}

/// Views of exec entries.
pub open spec fn entry_views(v: Seq<(String, BacklinkSource)>) -> Seq<(Seq<char>, SourceView)> {
    v.map_values(|e: (String, BacklinkSource)| (e.0@, source_view(e.1)))
}

/// The source path for a page at `rel` relative to `wiki/`.
pub fn source_path(rel: &str) -> (r: String)
    ensures
        r@ == source_path_of(rel@),
{
    let cs = chars_of(rel);
    let mut out = chars_of("wiki/");
    let mut i: usize = 0;
    let ghost base = out@;
    proof {
        reveal_strlit("wiki/");
    }
    while i < cs.len()
        invariant
            i <= cs@.len(),
            base == "wiki/"@,
            out@ == base + cs@.take(i as int).map_values(
                |c: char| if c == '\\' { '/' } else { c },
            ),
        decreases cs@.len() - i,
    {
        let c = cs[i];
        out.push(if c == '\\' { '/' } else { c });
        i += 1;
        proof {
            assert(cs@.take(i as int).map_values(|c: char| if c == '\\' { '/' } else { c })
                =~= cs@.take((i - 1) as int).map_values(
                |c: char| if c == '\\' { '/' } else { c },
            ).push(if c == '\\' { '/' } else { c }));
        }
    }
    proof {
        assert(cs@.take(i as int) == cs@);
    }
    string_of(out.as_slice())
}

fn push_entry(v: &mut Vec<(String, BacklinkSource)>, slug: String, src: BacklinkSource)
    ensures
        entry_views(final(v)@) == entry_views(old(v)@).push((slug@, source_view(src))),
{
    let ghost before = v@;
    v.push((slug, src));
    proof {
        assert(entry_views(v@) =~= entry_views(before).push((slug@, source_view(src))));
    }
}

/// The inbound entries a page at `src` contributes (see `page_entries`).
pub fn entries_of_page(src: &str, page: &Page) -> (r: Vec<(String, BacklinkSource)>)
    ensures
        entry_views(r@) == page_entries(src@, *page),
{
    let pairs = extract_link_lines(page.body.as_str());
    let ghost pv = pair_views(pairs@);
    let mut r: Vec<(String, BacklinkSource)> = Vec::new();
    let mut i: usize = 0;
    while i < pairs.len()
        invariant
            i <= pairs@.len(),
            pv == pair_views(pairs@),
            pv == lines_links(lines(page.body@)),
            entry_views(r@) == link_entries(src@, page.body@).take(i as int),
        decreases pairs@.len() - i,
    {
        let ctx = snippet_for(pairs[i].1.as_str(), pairs[i].0.as_str());
        let s = BacklinkSource { path: owned(src), kind: BacklinkKind::Wikilink, context: Some(ctx) };
        push_entry(&mut r, pairs[i].0.clone(), s);
        i += 1;
        proof {
            assert(link_entries(src@, page.body@).take(i as int) =~= link_entries(
                src@,
                page.body@,
            ).take((i - 1) as int).push(link_entries(src@, page.body@)[i - 1]));
        }
    }
    proof {
        assert(link_entries(src@, page.body@).take(i as int) == link_entries(src@, page.body@));
    }
    let ghost links = entry_views(r@);
    match &page.related {
        None => {
            proof {
                assert(related_entries(src@, Seq::empty()) =~= Seq::empty());
                assert(links + related_entries(src@, Seq::empty()) =~= links);
            }
        },
        Some(rel) => {
            let ghost rv = views(rel@);
            let mut j: usize = 0;
            while j < rel.len()
                invariant
                    j <= rel@.len(),
                    rv == views(rel@),
                    entry_views(r@) == links + related_entries(src@, rv.take(j as int)),
                decreases rel@.len() - j,
            {
                let rc = chars_of(rel[j].as_str());
                proof {
                    assert(rv.take(j + 1).drop_last() == rv.take(j as int));
                    assert(rv.take(j + 1).last() == rc@);
                    reveal_with_fuel(Seq::filter, 1);
                }
                match file_stem_of(rc.as_slice()) {
                    Some(stem) => {
                        let s = BacklinkSource {
                            path: owned(src),
                            kind: BacklinkKind::Related,
                            context: None,
                        };
                        let ghost before = entry_views(r@);
                        push_entry(&mut r, string_of(stem.as_slice()), s);
                        proof {
                            assert(rv.take(j + 1).filter(|r: Seq<char>| file_stem(r) is Some)
                                == rv.take(j as int).filter(|r: Seq<char>| file_stem(r) is Some).push(
                                rc@,
                            ));
                            assert(related_entries(src@, rv.take(j + 1)) =~= related_entries(
                                src@,
                                rv.take(j as int),
                            ).push(
                                (
                                    stem@,
                                    SourceView {
                                        path: src@,
                                        kind: BacklinkKind::Related,
                                        context: None,
                                    },
                                ),
                            ));
                        }
                    },
                    None => {
                        proof {
                            assert(related_entries(src@, rv.take(j + 1)) =~= related_entries(
                                src@,
                                rv.take(j as int),
                            ));
                        }
                    },
                }
                j += 1;
            }
            proof {
                assert(rv.take(j as int) == rv);
            }
        },
    }
    r
}

} // verus!

verus! {

// ───────────────────────── the whole index ─────────────────────────

/// The sources recorded for target `t` among `es`, in order.
pub open spec fn sources_for(es: Seq<(Seq<char>, SourceView)>, t: Seq<char>) -> Seq<SourceView> {
    es.filter(|e: (Seq<char>, SourceView)| e.0 == t).map_values(
        |e: (Seq<char>, SourceView)| e.1,
    )
}

/// The inbound entries of every page, pages in order. Each page is given
/// by its path relative to `wiki/`.
pub open spec fn all_entries(pages: Seq<(String, Page)>) -> Seq<(Seq<char>, SourceView)>
    decreases pages.len(),
{
    if pages.len() == 0 {
        Seq::empty()
    } else {
        all_entries(pages.drop_last()) + page_entries(
            source_path_of(pages.last().0@),
            pages.last().1,
        )
    }
}

/// Views of grouped sources.
pub open spec fn group_views(g: Seq<(String, Vec<BacklinkSource>)>) -> Map<
    Seq<char>,
    Seq<SourceView>,
> {
    Map::new(
        |t: Seq<char>| has_key(g, t),
        |t: Seq<char>| source_views(g[key_pos(g, t)].1@),
    )
}

/// The view of an index: target slug → its sources.
pub open spec fn index_view(recs: Seq<BacklinkRecord>) -> Map<Seq<char>, Seq<SourceView>> {
    Map::new(
        |t: Seq<char>| exists|i: int| 0 <= i < recs.len() && #[trigger] recs[i].target@ == t,
        |t: Seq<char>|
            source_views(
                recs[choose|i: int| 0 <= i < recs.len() && #[trigger] recs[i].target@ == t].sources@,
            ),
    )
}

/// The index built from the entries `es`: every target that occurs, mapped
/// to its sources in order.
pub open spec fn index_of_entries(es: Seq<(Seq<char>, SourceView)>) -> Map<Seq<char>, Seq<SourceView>> {
    Map::new(|t: Seq<char>| sources_for(es, t).len() > 0, |t: Seq<char>| sources_for(es, t))
}

/// A copy of a backlink source.
pub fn clone_source(s: &BacklinkSource) -> (r: BacklinkSource)
    ensures
        source_view(r) == source_view(*s),
{
    BacklinkSource {
        path: s.path.clone(),
        kind: s.kind,
        context: match &s.context {
            Some(c) => Some(c.clone()),
            None => None,
        },
    }
}

fn clone_sources(v: &Vec<BacklinkSource>) -> (r: Vec<BacklinkSource>)
    ensures
        source_views(r@) == source_views(v@),
{
    let mut r: Vec<BacklinkSource> = Vec::new();
    let mut i: usize = 0;
    while i < v.len()
        invariant
            i <= v@.len(),
            source_views(r@) == source_views(v@).take(i as int),
        decreases v@.len() - i,
    {
        let ghost before = r@;
        let c = clone_source(&v[i]);
        r.push(c);
        i += 1;
        proof {
            assert(source_views(r@) =~= source_views(before).push(source_view(c)));
            assert(source_views(v@).take(i as int) =~= source_views(v@).take((i - 1) as int).push(
                source_view(v@[i - 1]),
            ));
        }
    }
    proof {
        assert(source_views(v@).take(i as int) == source_views(v@));
    }
    r
}

/// Group entries by target, targets in order of first appearance.
fn group_entries(es: &Vec<(String, BacklinkSource)>) -> (r: Vec<(String, Vec<BacklinkSource>)>)
    ensures
        keys_unique(r@),
        forall|k: int| 0 <= k < r@.len() ==> #[trigger] r@[k].1@.len() > 0,
        group_views(r@) == index_of_entries(entry_views(es@)),
{
    let ghost ev = entry_views(es@);
    let mut r: Vec<(String, Vec<BacklinkSource>)> = Vec::new();
    let mut i: usize = 0;
    while i < es.len()
        invariant
            i <= es@.len(),
            ev == entry_views(es@),
            keys_unique(r@),
            forall|k: int| 0 <= k < r@.len() ==> #[trigger] r@[k].1@.len() > 0,
            forall|t: Seq<char>|
                #![trigger sources_for(ev.take(i as int), t)]
                has_key(r@, t) <==> sources_for(ev.take(i as int), t).len() > 0,
            forall|t: Seq<char>|
                #![trigger sources_for(ev.take(i as int), t)]
                has_key(r@, t) ==> source_views(r@[key_pos(r@, t)].1@) == sources_for(
                    ev.take(i as int),
                    t,
                ),
        decreases es@.len() - i,
    {
        let ghost old_r = r@;
        let ghost e = ev[i as int];
        let ghost pre = ev.take(i as int);
        let ghost nxt = ev.take(i + 1);
        proof {
            assert(nxt == pre.push(e));
            reveal_with_fuel(Seq::filter, 1);
            assert forall|t: Seq<char>| #[trigger]
                sources_for(nxt, t) == if e.0 == t {
                    sources_for(pre, t).push(e.1)
                } else {
                    sources_for(pre, t)
                } by {
                assert(nxt.drop_last() == pre);
                if e.0 == t {
                    assert(sources_for(nxt, t) =~= sources_for(pre, t).push(e.1));
                }
            }
        }
        let src = clone_source(&es[i].1);
        match find_key(&r, es[i].0.as_str()) {
            Some(p) => {
                let mut list = clone_sources(&r[p].1);
                let ghost old_list = source_views(list@);
                list.push(src);
                let key = r[p].0.clone();
                r.set(p, (key, list));
                proof {
                    lemma_key_pos(old_r, e.0);
                    lemma_update_value(old_r, p as int, r@[p as int]);
                    assert(r@ == old_r.update(p as int, r@[p as int]));
                    assert(source_views(list@) =~= old_list.push(e.1));
                    assert forall|k: int| 0 <= k < r@.len() implies #[trigger] r@[k].1@.len() > 0 by {
                        if k != p {
                            assert(r@[k] == old_r[k]);
                        }
                    }
                    assert forall|t: Seq<char>|
                        #![trigger sources_for(nxt, t)]
                        has_key(r@, t) ==> source_views(r@[key_pos(r@, t)].1@) == sources_for(
                            nxt,
                            t,
                        ) by {
                        if has_key(r@, t) {
                            lemma_key_pos(old_r, t);
                            if t != e.0 {
                                assert(key_pos(r@, t) != p);
                            }
                        }
                    }
                }
            },
            None => {
                let mut list: Vec<BacklinkSource> = Vec::new();
                list.push(src);
                let key = es[i].0.clone();
                let ghost entry = (key, list);
                r.push((key, list));
                proof {
                    lemma_push_key(old_r, r@.last());
                    assert(r@ == old_r.push(r@.last()));
                    assert(source_views(list@) =~= seq![e.1]);
                    assert forall|k: int| 0 <= k < r@.len() implies #[trigger] r@[k].1@.len() > 0 by {
                        if k < old_r.len() {
                            assert(r@[k] == old_r[k]);
                        }
                    }
                    assert forall|t: Seq<char>|
                        #![trigger sources_for(nxt, t)]
                        has_key(r@, t) ==> source_views(r@[key_pos(r@, t)].1@) == sources_for(
                            nxt,
                            t,
                        ) by {
                        if has_key(r@, t) {
                            if t == e.0 {
                                assert(sources_for(pre, t).len() == 0);
                                assert(sources_for(nxt, t) =~= seq![e.1]);
                            } else {
                                lemma_key_pos(old_r, t);
                                assert(r@[key_pos(r@, t)] == old_r[key_pos(old_r, t)]);
                            }
                        }
                    }
                }
            },
        }
        i += 1;
    }
    proof {
        assert(ev.take(i as int) == ev);
        assert(group_views(r@) =~= index_of_entries(ev));
    }
    r
}

/// The inbound entries of all pages (each given by its path relative to
/// `wiki/`), pages in order.
pub fn entries_of_pages(pages: &[(String, Page)]) -> (r: Vec<(String, BacklinkSource)>)
    ensures
        entry_views(r@) == all_entries(pages@),
{
    let mut r: Vec<(String, BacklinkSource)> = Vec::new();
    let mut i: usize = 0;
    while i < pages.len()
        invariant
            i <= pages@.len(),
            entry_views(r@) == all_entries(pages@.take(i as int)),
        decreases pages@.len() - i,
    {
        let src = source_path(pages[i].0.as_str());
        let mut es = entries_of_page(src.as_str(), &pages[i].1);
        let ghost before = entry_views(r@);
        let ghost add = entry_views(es@);
        r.append(&mut es);
        proof {
            assert(entry_views(r@) =~= before + add);
            assert(pages@.take(i + 1).drop_last() == pages@.take(i as int));
            assert(pages@.take(i + 1).last() == pages@[i as int]);
        }
        i += 1;
    }
    proof {
        assert(pages@.take(i as int) == pages@);
    }
    r
}

/// Build the whole backlink index from the pages of `wiki/` (each given by
/// its path relative to `wiki/`, in walk order): one record per target
/// slug, its sources in page order — a page's body links line by line,
/// then its `related:` entries.
pub fn build_index(pages: &[(String, Page)]) -> (r: Vec<BacklinkRecord>)
    ensures
        index_view(r@) == index_of_entries(all_entries(pages@)),
        forall|a: int, b: int|
            0 <= a < r@.len() && 0 <= b < r@.len() && a != b ==> r@[a].target@ != r@[b].target@,
{
    let es = entries_of_pages(pages);
    let g = group_entries(&es);
    let mut r: Vec<BacklinkRecord> = Vec::new();
    let mut i: usize = 0;
    while i < g.len()
        invariant
            i <= g@.len(),
            r@.len() == i,
            forall|k: int|
                0 <= k < i ==> (#[trigger] r@[k]).target@ == g@[k].0@ && source_views(
                    r@[k].sources@,
                ) == source_views(g@[k].1@),
        decreases g@.len() - i,
    {
        let t = g[i].0.clone();
        let s = clone_sources(&g[i].1);
        r.push(BacklinkRecord { target: t, sources: s });
        i += 1;
    }
    proof {
        assert forall|a: int, b: int|
            0 <= a < r@.len() && 0 <= b < r@.len() && a != b implies r@[a].target@
            != r@[b].target@ by {
            assert(g@[a].0@ != g@[b].0@);
        }
        assert forall|t: Seq<char>| #[trigger] index_view(r@).contains_key(t) == group_views(
            g@,
        ).contains_key(t) by {
            if index_view(r@).contains_key(t) {
                let k = choose|k: int| 0 <= k < r@.len() && #[trigger] r@[k].target@ == t;
                assert(g@[k].0@ == t);
            }
            if group_views(g@).contains_key(t) {
                let k = choose|k: int| 0 <= k < g@.len() && #[trigger] g@[k].0@ == t;
                assert(r@[k].target@ == t);
            }
        }
        assert forall|t: Seq<char>| #[trigger] index_view(r@).contains_key(t) implies index_view(
            r@,
        )[t] == group_views(g@)[t] by {
            let k = choose|k: int| 0 <= k < r@.len() && #[trigger] r@[k].target@ == t;
            lemma_key_pos(g@, t);
            let p = key_pos(g@, t);
            assert(g@[k].0@ == t);
            if p != k {
                assert(g@[p].0@ == t);
            }
        }
        assert(index_view(r@) =~= group_views(g@));
    }
    r
}

} // verus!

verus! {

// ───────────────────────── incremental updates ─────────────────────────

/// The target slugs a page links to: body links line by line, then its
/// `related:` stems (repeats kept).
pub open spec fn outbound(page: Page) -> Seq<Seq<char>> {
    page_entries(Seq::empty(), page).map_values(|e: (Seq<char>, SourceView)| e.0)
}

pub proof fn lemma_outbound_any_src(src: Seq<char>, page: Page)
    ensures
        page_entries(src, page).map_values(|e: (Seq<char>, SourceView)| e.0) == outbound(page),
{
    assert(page_entries(src, page).map_values(|e: (Seq<char>, SourceView)| e.0) =~= outbound(page));
}

/// The slugs in `old`, then those of `new` not seen before, each new one
/// once.
pub open spec fn union_slugs(old: Seq<Seq<char>>, new: Seq<Seq<char>>) -> Seq<Seq<char>>
    decreases new.len(),
{
    if new.len() == 0 {
        old
    } else {
        let u = union_slugs(old, new.drop_last());
        if u.contains(new.last()) {
            u
        } else {
            u.push(new.last())
        }
    }
}

/// The sources a sidecar for `slug` holds after the page at `src` changed:
/// the existing sources from other pages, then the page's own entries for
/// `slug` (none when the page is gone).
pub open spec fn updated_sources_spec(
    existing: Seq<SourceView>,
    src: Seq<char>,
    slug: Seq<char>,
    page: Option<Page>,
) -> Seq<SourceView> {
    existing.filter(|s: SourceView| s.path != src) + match page {
        Some(p) => sources_for(page_entries(src, p), slug),
        None => Seq::empty(),
    }
}

/// The target slugs the page links to.
pub fn outbound_slugs(page: &Page) -> (r: Vec<String>)
    ensures
        views(r@) == outbound(*page),
{
    let es = entries_of_page("", page);
    let mut r: Vec<String> = Vec::new();
    let mut i: usize = 0;
    let ghost ev = entry_views(es@);
    proof {
        reveal_strlit("");
        assert(""@ == Seq::<char>::empty());
        lemma_outbound_any_src(""@, *page);
    }
    while i < es.len()
        invariant
            i <= es@.len(),
            ev == entry_views(es@),
            ev.map_values(|e: (Seq<char>, SourceView)| e.0) == outbound(*page),
            views(r@) == ev.map_values(|e: (Seq<char>, SourceView)| e.0).take(i as int),
        decreases es@.len() - i,
    {
        let ghost before = r@;
        let s = es[i].0.clone();
        r.push(s);
        i += 1;
        proof {
            assert(views(r@) =~= views(before).push(s@));
            assert(ev.map_values(|e: (Seq<char>, SourceView)| e.0).take(i as int) =~= ev.map_values(
                |e: (Seq<char>, SourceView)| e.0,
            ).take((i - 1) as int).push(ev[i - 1].0));
        }
    }
    proof {
        assert(ev.map_values(|e: (Seq<char>, SourceView)| e.0).take(i as int) == outbound(*page));
    }
    r
}

fn contains_string(v: &Vec<String>, s: &str) -> (r: bool)
    ensures
        r == views(v@).contains(s@),
{
    let mut i: usize = 0;
    while i < v.len()
        invariant
            i <= v@.len(),
            forall|j: int| 0 <= j < i ==> views(v@)[j] != s@,
        decreases v@.len() - i,
    {
        if crate::text::str_eq(v[i].as_str(), s) {
            assert(views(v@)[i as int] == s@);
            return true;
        }
        i += 1;
    }
    false
}

/// The sidecars to revisit: the slugs that listed the page before, then
/// those it links to now that were not among them.
pub fn affected_slugs(old: &Vec<String>, new: &Vec<String>) -> (r: Vec<String>)
    ensures
        views(r@) == union_slugs(views(old@), views(new@)),
{
    let mut r = crate::text::clone_strings(old);
    let mut i: usize = 0;
    let ghost nv = views(new@);
    while i < new.len()
        invariant
            i <= new@.len(),
            nv == views(new@),
            views(r@) == union_slugs(views(old@), nv.take(i as int)),
        decreases new@.len() - i,
    {
        proof {
            assert(nv.take(i + 1).drop_last() == nv.take(i as int));
            assert(nv.take(i + 1).last() == nv[i as int]);
            assert(nv.take(0) == Seq::<Seq<char>>::empty());
        }
        if !contains_string(&r, new[i].as_str()) {
            let ghost before = r@;
            let s = new[i].clone();
            r.push(s);
            proof {
                assert(views(r@) =~= views(before).push(s@));
            }
        }
        i += 1;
    }
    proof {
        assert(nv.take(i as int) == nv);
    }
    r
}

/// The sources of the sidecar for `slug` after the page at `src` was
/// written (`page` is `Some`) or removed (`None`).
pub fn updated_sources(
    existing: &Vec<BacklinkSource>,
    src: &str,
    slug: &str,
    page: Option<&Page>,
) -> (r: Vec<BacklinkSource>)
    ensures
        source_views(r@) == updated_sources_spec(
            source_views(existing@),
            src@,
            slug@,
            match page {
                Some(p) => Some(*p),
                None => None,
            },
        ),
{
    let ghost ex = source_views(existing@);
    let mut r: Vec<BacklinkSource> = Vec::new();
    let mut i: usize = 0;
    while i < existing.len()
        invariant
            i <= existing@.len(),
            ex == source_views(existing@),
            source_views(r@) == ex.take(i as int).filter(|s: SourceView| s.path != src@),
        decreases existing@.len() - i,
    {
        proof {
            assert(ex.take(i + 1).drop_last() == ex.take(i as int));
            assert(ex.take(i + 1).last() == ex[i as int]);
            reveal_with_fuel(Seq::filter, 1);
        }
        if !crate::text::str_eq(existing[i].path.as_str(), src) {
            let ghost before = r@;
            let c = clone_source(&existing[i]);
            r.push(c);
            proof {
                assert(source_views(r@) =~= source_views(before).push(source_view(c)));
            }
        }
        i += 1;
    }
    proof {
        assert(ex.take(i as int) == ex);
    }
    let ghost kept = source_views(r@);
    match page {
        None => {
            proof {
                assert(kept + Seq::<SourceView>::empty() =~= kept);
            }
        },
        Some(p) => {
            let es = entries_of_page(src, p);
            let ghost ev = entry_views(es@);
            let mut j: usize = 0;
            while j < es.len()
                invariant
                    j <= es@.len(),
                    ev == entry_views(es@),
                    source_views(r@) == kept + sources_for(ev.take(j as int), slug@),
                decreases es@.len() - j,
            {
                proof {
                    assert(ev.take(j + 1).drop_last() == ev.take(j as int));
                    assert(ev.take(j + 1).last() == ev[j as int]);
                    reveal_with_fuel(Seq::filter, 1);
                }
                if crate::text::str_eq(es[j].0.as_str(), slug) {
                    let ghost before = r@;
                    let c = clone_source(&es[j].1);
                    r.push(c);
                    proof {
                        assert(source_views(r@) =~= source_views(before).push(source_view(c)));
                        assert(sources_for(ev.take(j + 1), slug@) =~= sources_for(
                            ev.take(j as int),
                            slug@,
                        ).push(ev[j as int].1));
                    }
                } else {
                    proof {
                        assert(sources_for(ev.take(j + 1), slug@) =~= sources_for(
                            ev.take(j as int),
                            slug@,
                        ));
                    }
                }
                j += 1;
            }
            proof {
                assert(ev.take(j as int) == ev);
            }
        },
    }
    r
}

// ───────────────────────── sidecar decisions ─────────────────────────

/// The record lists a source from the page stored as `src`.
pub fn lists_source(record: &BacklinkRecord, src: &str) -> (r: bool)
    ensures
        r == exists|i: int| 0 <= i < record.sources@.len() && (#[trigger] record.sources@[i]).path@ == src@,
{
    let mut i: usize = 0;
    while i < record.sources.len()
        invariant
            i <= record.sources@.len(),
            forall|j: int| 0 <= j < i ==> (#[trigger] record.sources@[j]).path@ != src@,
        decreases record.sources@.len() - i,
    {
        if str_eq(record.sources[i].path.as_str(), src) {
            return true;
        }
        i += 1;
    }
    false
}

/// What becomes of the sidecar for `slug` after the page stored as `src`
/// was written (`page` is `Some`) or removed: the record to write, or
/// `None` when no source is left and the sidecar goes.
pub fn sidecar_update(existing: &Vec<BacklinkSource>, src: &str, slug: &str, page: Option<&Page>) -> (r:
    Option<BacklinkRecord>)
    ensures
        match r {
            Some(rec) => rec.target@ == slug@ && source_views(rec.sources@) == updated_sources_spec(
                source_views(existing@),
                src@,
                slug@,
                match page {
                    Some(p) => Some(*p),
                    None => None,
                },
            ) && rec.sources@.len() > 0,
            None => updated_sources_spec(
                source_views(existing@),
                src@,
                slug@,
                match page {
                    Some(p) => Some(*p),
                    None => None,
                },
            ).len() == 0,
        },
{
    let sources = updated_sources(existing, src, slug, page);
    if sources.len() == 0 {
        None
    } else {
        Some(BacklinkRecord { target: owned(slug), sources })
    }
}

/// The targets of `existing` that no record of `records` is for.
pub open spec fn stale_spec(existing: Seq<Seq<char>>, records: Seq<BacklinkRecord>) -> Seq<Seq<char>>
    decreases existing.len(),
{
    if existing.len() == 0 {
        Seq::empty()
    } else {
        stale_spec(existing.drop_last(), records) + if exists|i: int|
            0 <= i < records.len() && (#[trigger] records[i]).target@ == existing.last() {
            Seq::empty()
        } else {
            seq![existing.last()]
        }
    }
}

/// The sidecars a full rebuild removes: those (named by target) that the
/// rebuilt index has no record for.
pub fn stale_targets(existing: &Vec<String>, records: &Vec<BacklinkRecord>) -> (r: Vec<String>)
    ensures
        views(r@) == stale_spec(views(existing@), records@),
{
    let ghost ev = views(existing@);
    let mut r: Vec<String> = Vec::new();
    let mut i: usize = 0;
    proof {
        assert(ev.take(0) =~= Seq::empty());
        assert(views(r@) =~= Seq::empty());
    }
    while i < existing.len()
        invariant
            i <= existing@.len(),
            ev == views(existing@),
            views(r@) == stale_spec(ev.take(i as int), records@),
        decreases existing@.len() - i,
    {
        assert(ev.take(i + 1).drop_last() =~= ev.take(i as int));
        assert(ev.take(i + 1).last() == existing@[i as int]@);
        let mut found = false;
        let mut k: usize = 0;
        while k < records.len()
            invariant
                k <= records@.len(),
                i < existing@.len(),
                found == exists|j: int| 0 <= j < k && (#[trigger] records@[j]).target@ == existing@[i as int]@,
            decreases records@.len() - k,
        {
            if str_eq(records[k].target.as_str(), existing[i].as_str()) {
                found = true;
            }
            k += 1;
        }
        let ghost r0 = views(r@);
        if !found {
            r.push(owned(existing[i].as_str()));
            assert(views(r@) =~= r0.push(existing@[i as int]@));
        }
        proof {
            assert(views(r@) =~= stale_spec(ev.take(i + 1), records@));
        }
        i += 1;
    }
    proof {
        assert(ev.take(i as int) =~= ev);
    }
    r
}

} // verus!
