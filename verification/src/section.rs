//! Section-level editing of markdown bodies: split off the frontmatter,
//! find a heading's section, append to it or replace it.
//!
//! Offsets inside the library are character offsets into the body;
//! `find_section` reports byte offsets.

use crate::text::{
    chars_of, find_from, find_spec, first_occurrence, lowercase, occurs_at, push_all, slice_chars,
    string_of, to_lowercase, trim, trim_chars, trim_end, trim_end_chars, trim_end_len,
};
use vstd::prelude::*;
use comrak::nodes::NodeValue;
use comrak::{parse_document, Arena, Options};
use vstd::string::StrSliceExecFns;

verus! {

// ───────────────────────── frontmatter ─────────────────────────

/// Where the frontmatter block of `raw` ends (the index just past its
/// closing `---` line), if `raw` has one. The block opens with `---` on
/// the first line; it closes at the first `"\n---\n"` after that line, or,
/// failing that, at the first `"\n---\r\n"`.
pub open spec fn frontmatter_end(raw: Seq<char>) -> Option<int> {
    let crlf = crate::text::starts_with(raw, "---\r\n"@);
    let lf = crate::text::starts_with(raw, "---\n"@);
    let ss: int = if crlf {
        5
    } else {
        4
    };
    if !lf && !crlf {
        None
    } else {
        match find_spec(raw, "\n---\n"@, ss) {
            Some(p) => Some(p + 5),
            None => match find_spec(raw, "\n---\r\n"@, ss) {
                Some(p) => Some(p + 6),
                None => None,
            },
        }
    }
}

proof fn lemma_first_occurrence_choose(s: Seq<char>, pat: Seq<char>, from: int, p: int)
    requires
        first_occurrence(s, pat, from, p),
    ensures
        exists|q: int| first_occurrence(s, pat, from, q),
        (choose|q: int| first_occurrence(s, pat, from, q)) == p,
{
    let q = choose|q: int| first_occurrence(s, pat, from, q);
    assert(first_occurrence(s, pat, from, q));
    if q < p {
        assert(!occurs_at(s, pat, q));
    }
    if p < q {
        assert(!occurs_at(s, pat, p));
    }
}

/// Split `raw` into its frontmatter block (with both `---` lines) and the
/// rest. Without a block the first part is empty and the second is `raw`.
pub fn split_frontmatter<'a>(raw: &'a str) -> (r: (&'a str, &'a str))
    ensures
        match frontmatter_end(raw@) {
            Some(e) => r.0@ == raw@.take(e) && r.1@ == raw@.skip(e),
            None => r.0@.len() == 0 && r.1@ == raw@,
        },
{
    let cs = chars_of(raw);
    let lf = chars_of("---\n");
    let crlf = chars_of("---\r\n");
    let pat1 = chars_of("\n---\n");
    let pat2 = chars_of("\n---\r\n");
    proof {
        reveal_strlit("---\n");
        reveal_strlit("---\r\n");
        reveal_strlit("\n---\n");
        reveal_strlit("\n---\r\n");
    }
    let is_crlf = crate::text::starts_with_exec(cs.as_slice(), crlf.as_slice());
    let is_lf = crate::text::starts_with_exec(cs.as_slice(), lf.as_slice());
    if !is_lf && !is_crlf {
        proof {
            reveal_strlit("");
        }
        return ("", raw);
    }
    let ss: usize = if is_crlf {
        5
    } else {
        4
    };
    let n = raw.unicode_len();
    match find_from(cs.as_slice(), pat1.as_slice(), ss) {
        Some(p) => {
            proof {
                lemma_first_occurrence_choose(cs@, pat1@, ss as int, p as int);
            }
            let e = p + 5;
            proof {
                assert(frontmatter_end(raw@) == Some(e as int));
            }
            let a = raw.substring_char(0, e);
            let b = raw.substring_char(e, n);
            proof {
                assert(a@ == raw@.take(e as int));
                assert(b@ == raw@.skip(e as int));
            }
            return (a, b);
        },
        None => {
            proof {
                if exists|p: int| first_occurrence(cs@, pat1@, ss as int, p) {
                    let q = choose|q: int| first_occurrence(cs@, pat1@, ss as int, q);
                    assert(!occurs_at(cs@, pat1@, q));
                }
            }
        },
    }
    match find_from(cs.as_slice(), pat2.as_slice(), ss) {
        Some(p) => {
            proof {
                lemma_first_occurrence_choose(cs@, pat2@, ss as int, p as int);
            }
            let e = p + 6;
            (raw.substring_char(0, e), raw.substring_char(e, n))
        },
        None => {
            proof {
                if exists|p: int| first_occurrence(cs@, pat2@, ss as int, p) {
                    let q = choose|q: int| first_occurrence(cs@, pat2@, ss as int, q);
                    assert(!occurs_at(cs@, pat2@, q));
                }
            }
            proof {
                reveal_strlit("");
            }
            ("", raw)
        },
    }
}

} // verus!

verus! {

// ───────────────────────── line offsets ─────────────────────────

/// The index just past the `k`-th newline of `s` (`s.len()` when `s` has
/// fewer than `k` newlines).
pub open spec fn after_newlines(s: Seq<char>, k: nat) -> int
    decreases k,
{
    if k == 0 {
        0
    } else {
        let i = crate::text::index_of(s, '\n');
        if i >= s.len() {
            s.len() as int
        } else {
            (i + 1) + after_newlines(s.skip(i + 1), (k - 1) as nat)
        }
    }
}

pub proof fn lemma_after_newlines(s: Seq<char>, k: nat)
    ensures
        0 <= after_newlines(s, k) <= s.len(),
    decreases k,
{
    if k > 0 {
        crate::text::lemma_index_of(s, '\n');
        let i = crate::text::index_of(s, '\n');
        if i < s.len() {
            lemma_after_newlines(s.skip(i + 1), (k - 1) as nat);
        }
    }
}

/// Offset of the start of 1-based line `line`.
pub open spec fn line_start(s: Seq<char>, line: int) -> int {
    if line <= 1 {
        0
    } else {
        after_newlines(s, (line - 1) as nat)
    }
}

/// Offset just past the newline ending 1-based line `line` (the end of
/// the text when that line has no newline).
pub open spec fn line_end(s: Seq<char>, line: int) -> int {
    if line <= 0 {
        s.len() as int
    } else {
        after_newlines(s, line as nat)
    }
}

/// `after_newlines`, computed from index `pos` on, for `k` newlines.
fn after_newlines_from(s: &[char], pos: usize, k: usize) -> (r: usize)
    requires
        pos <= s@.len(),
    ensures
        r == pos + after_newlines(s@.skip(pos as int), k as nat),
    decreases k,
{
    if k == 0 {
        return pos;
    }
    let ghost rest = s@.skip(pos as int);
    proof {
        crate::text::lemma_index_of(rest, '\n');
    }
    match crate::text::find_char(s, '\n', pos) {
        Some(i) => {
            proof {
                crate::text::lemma_index_of_unique(rest, '\n', i - pos);
                assert(rest.skip(i - pos + 1) == s@.skip(i + 1));
            }
            let len = s.len();
            if i < len {
                after_newlines_from(s, i + 1, k - 1)
            } else {
                len
            }
        },
        None => {
            proof {
                crate::text::lemma_index_of_unique(rest, '\n', rest.len() as int);
            }
            s.len()
        },
    }
}

/// Offset of the start of 1-based line `line` of `text`.
pub fn offset_for_line(text: &[char], line: usize) -> (r: usize)
    ensures
        r == line_start(text@, line as int),
        r <= text@.len(),
{
    proof {
        assert(text@.skip(0) == text@);
        if line > 1 {
            lemma_after_newlines(text@, (line - 1) as nat);
        }
    }
    if line <= 1 {
        0
    } else {
        after_newlines_from(text, 0, line - 1)
    }
}

/// Offset just past the newline ending 1-based line `line` of `text`.
pub fn offset_after_line(text: &[char], line: usize) -> (r: usize)
    ensures
        r == line_end(text@, line as int),
        r <= text@.len(),
{
    proof {
        assert(text@.skip(0) == text@);
        lemma_after_newlines(text@, line as nat);
    }
    if line == 0 {
        text.len()
    } else {
        after_newlines_from(text, 0, line)
    }
}

// ───────────────────────── headings ─────────────────────────

/// A heading at the top level of a markdown document.
pub struct Heading {
    /// 1-6.
    pub level: u8,
    /// 1-based line of its first character.
    pub start_line: usize,
    /// 1-based line of its last character.
    pub end_line: usize,
    /// Its plain text: text and code spans, line breaks as spaces.
    pub text: String,
}

pub open spec fn heading_view(h: Heading) -> (u8, usize, usize, Seq<char>) {
    (h.level, h.start_line, h.end_line, h.text@)
}

/// An inline node below a heading, as comrak's parser reports it.
pub enum Inline {
    Text(String),
    Code(String),
    SoftBreak,
    LineBreak,
    Other,
}

/// A top-level node of a parsed markdown document: a heading with its
/// level, first and last source line and the nodes below it (depth-first,
/// the heading itself first), or anything else.
pub enum MdNode {
    Heading { level: u8, start_line: usize, end_line: usize, inlines: Vec<Inline> },
    Other,
}

/// An inline node as plain values: a kind (0 text, 1 code, 2 soft break,
/// 3 line break, 4 other) and its literal.
pub open spec fn inline_view(i: Inline) -> (u8, Seq<char>) {
    match i {
        Inline::Text(t) => (0, t@),
        Inline::Code(c) => (1, c@),
        Inline::SoftBreak => (2, Seq::empty()),
        Inline::LineBreak => (3, Seq::empty()),
        Inline::Other => (4, Seq::empty()),
    }
}

/// A top-level node as plain values: whether it is a heading, its level,
/// first and last line, and its inline nodes.
pub open spec fn node_view(n: MdNode) -> (bool, u8, usize, usize, Seq<(u8, Seq<char>)>) {
    match n {
        MdNode::Heading { level, start_line, end_line, inlines } => (
            true,
            level,
            start_line,
            end_line,
            inlines@.map_values(|i: Inline| inline_view(i)),
        ),
        MdNode::Other => (false, 0, 0, 0, Seq::empty()),
    }
}

/// What `comrak::parse_document` gives for a markdown text, as the
/// top-level nodes in order.
pub uninterp spec fn comrak_nodes(body: Seq<char>) -> Seq<(bool, u8, usize, usize, Seq<(u8, Seq<char>)>)>;

/// `comrak::parse_document` with default options; each top-level node is
/// returned, in order, as a heading (level, source position's first and
/// last line, and each of its descendants in comrak's depth-first order as
/// an inline node) or as another node. The contract names the result.
#[verifier::external_body]
fn parse_blocks(body: &str) -> (r: Vec<MdNode>)
    ensures
        r@.map_values(|n: MdNode| node_view(n)) == comrak_nodes(body@),
{
    let arena = Arena::new();
    let root = parse_document(&arena, body, &Options::default());
    root.children().map(|node| {
        let d = node.data.borrow();
        match &d.value {
            NodeValue::Heading(h) => MdNode::Heading { level: h.level, start_line: d.sourcepos.start.line,
                end_line: d.sourcepos.end.line, inlines: node.descendants().map(|n| match &n.data.borrow().value {
                    NodeValue::Text(t) => Inline::Text(t.to_string()), NodeValue::Code(c) => Inline::Code(c.literal.clone()),
                    NodeValue::SoftBreak => Inline::SoftBreak, NodeValue::LineBreak => Inline::LineBreak, _ => Inline::Other,
                }).collect() },
            _ => MdNode::Other,
        }
    }).collect()
}

/// What an inline node adds to a heading's plain text: text and code
/// literals as they are, a space for a line break, nothing else.
pub open spec fn inline_text(i: (u8, Seq<char>)) -> Seq<char> {
    if i.0 == 0 || i.0 == 1 {
        i.1
    } else if i.0 == 2 || i.0 == 3 {
        seq![' ']
    } else {
        Seq::empty()
    }
}

/// The plain text of a heading's inline nodes, in order.
pub open spec fn inlines_text(s: Seq<(u8, Seq<char>)>) -> Seq<char>
    decreases s.len(),
{
    if s.len() == 0 {
        Seq::empty()
    } else {
        inlines_text(s.drop_last()) + inline_text(s.last())
    }
}

/// The headings among top-level nodes: level, first and last line, text.
pub open spec fn headings_of(ns: Seq<(bool, u8, usize, usize, Seq<(u8, Seq<char>)>)>) -> Seq<
    (u8, usize, usize, Seq<char>),
>
    decreases ns.len(),
{
    if ns.len() == 0 {
        Seq::empty()
    } else {
        headings_of(ns.drop_last()) + if ns.last().0 {
            seq![(ns.last().1, ns.last().2, ns.last().3, inlines_text(ns.last().4))]
        } else {
            Seq::empty()
        }
    }
}

/// The top-level headings of a markdown text as comrak parses it: level,
/// first and last source line, and plain text.
pub open spec fn comrak_headings(body: Seq<char>) -> Seq<(u8, usize, usize, Seq<char>)> {
    headings_of(comrak_nodes(body))
}

fn plain_text(inlines: &Vec<Inline>) -> (r: String)
    ensures
        r@ == inlines_text(inlines@.map_values(|i: Inline| inline_view(i))),
{
    let ghost iv = inlines@.map_values(|i: Inline| inline_view(i));
    let mut t: Vec<char> = Vec::new();
    let mut k: usize = 0;
    proof {
        assert(iv.take(0) =~= Seq::empty());
    }
    while k < inlines.len()
        invariant
            k <= inlines@.len(),
            iv == inlines@.map_values(|i: Inline| inline_view(i)),
            t@ == inlines_text(iv.take(k as int)),
        decreases inlines@.len() - k,
    {
        assert(iv.take(k + 1).drop_last() =~= iv.take(k as int));
        assert(iv.take(k + 1).last() == inline_view(inlines@[k as int]));
        match &inlines[k] {
            Inline::Text(x) => push_all(&mut t, chars_of(x.as_str()).as_slice()),
            Inline::Code(x) => push_all(&mut t, chars_of(x.as_str()).as_slice()),
            Inline::SoftBreak => t.push(' '),
            Inline::LineBreak => t.push(' '),
            Inline::Other => {},
        }
        proof {
            assert(t@ =~= inlines_text(iv.take(k + 1)));
        }
        k += 1;
    }
    proof {
        assert(iv.take(k as int) =~= iv);
    }
    string_of(t.as_slice())
}

/// The top-level headings of a markdown text, with their plain text.
fn markdown_headings(body: &str) -> (r: Vec<Heading>)
    ensures
        r@.map_values(|h: Heading| heading_view(h)) == comrak_headings(body@),
{
    let ns = parse_blocks(body);
    let ghost nv = ns@.map_values(|n: MdNode| node_view(n));
    let mut r: Vec<Heading> = Vec::new();
    let mut k: usize = 0;
    proof {
        assert(nv.take(0) =~= Seq::empty());
        assert(r@.map_values(|h: Heading| heading_view(h)) =~= Seq::empty());
    }
    while k < ns.len()
        invariant
            k <= ns@.len(),
            nv == ns@.map_values(|n: MdNode| node_view(n)),
            r@.map_values(|h: Heading| heading_view(h)) == headings_of(nv.take(k as int)),
        decreases ns@.len() - k,
    {
        assert(nv.take(k + 1).drop_last() =~= nv.take(k as int));
        assert(nv.take(k + 1).last() == node_view(ns@[k as int]));
        let ghost before = r@;
        match &ns[k] {
            MdNode::Heading { level, start_line, end_line, inlines } => {
                let text = plain_text(inlines);
                r.push(Heading { level: *level, start_line: *start_line, end_line: *end_line, text });
                proof {
                    assert(r@.map_values(|h: Heading| heading_view(h)) =~= before.map_values(
                        |h: Heading| heading_view(h),
                    ).push(heading_view(r@.last())));
                }
            },
            MdNode::Other => {},
        }
        proof {
            assert(r@.map_values(|h: Heading| heading_view(h)) =~= headings_of(nv.take(k + 1)));
        }
        k += 1;
    }
    proof {
        assert(nv.take(k as int) =~= nv);
    }
    r
}

/// A heading's text names the section `name` (case-insensitively, the
/// heading text trimmed).
pub open spec fn names_section(text: Seq<char>, name: Seq<char>) -> bool {
    lowercase(trim(text)) == lowercase(name)
}

/// Index of the first heading at or after `i` naming `name`, or `hs.len()`.
pub open spec fn first_named(hs: Seq<(u8, usize, usize, Seq<char>)>, name: Seq<char>, i: int) -> int
    decreases hs.len() - i,
{
    if i >= hs.len() {
        hs.len() as int
    } else if names_section(hs[i].3, name) {
        i
    } else {
        first_named(hs, name, i + 1)
    }
}

/// Index of the first heading at or after `i` whose level is at most
/// `level`, or `hs.len()`.
pub open spec fn next_at_or_above(hs: Seq<(u8, usize, usize, Seq<char>)>, level: u8, i: int) -> int
    decreases hs.len() - i,
{
    if i >= hs.len() {
        hs.len() as int
    } else if hs[i].0 <= level {
        i
    } else {
        next_at_or_above(hs, level, i + 1)
    }
}

/// Where a section sits in a body.
#[derive(Debug, Clone)]
pub struct SectionMatch {
    /// Offset of the start of the heading's first line.
    pub heading_start: usize,
    /// Offset just past the heading's last line.
    pub heading_end: usize,
    /// Offset where the section ends: the next heading of the same or a
    /// higher level, or the end of the body.
    pub section_end: usize,
    /// The heading level (1-6).
    pub level: u8,
    /// More than one heading names the section (the first is used).
    pub multiple_matches: bool,
}

/// The section of `body` named `name`, if a top-level heading names it.
pub open spec fn section_spec(body: Seq<char>, name: Seq<char>) -> Option<SectionMatch> {
    let hs = comrak_headings(body);
    let m = first_named(hs, name, 0);
    if m >= hs.len() || m < 0 {
        None
    } else {
        let nxt = next_at_or_above(hs, hs[m].0, m + 1);
        Some(
            SectionMatch {
                heading_start: line_start(body, hs[m].1 as int) as usize,
                heading_end: line_end(body, hs[m].2 as int) as usize,
                section_end: if nxt < hs.len() {
                    line_start(body, hs[nxt].1 as int) as usize
                } else {
                    body.len() as usize
                },
                level: hs[m].0,
                multiple_matches: first_named(hs, name, m + 1) < hs.len(),
            },
        )
    }
}

/// The section named `section_name`, with character offsets.
pub(crate) fn find_section_chars(body: &str, section_name: &str) -> (r: Option<SectionMatch>)
    ensures
        r == section_spec(body@, section_name@),
        r matches Some(m) ==> m.heading_start <= body@.len() && m.heading_end <= body@.len()
            && m.section_end <= body@.len(),
{
    let text = chars_of(body);
    let hs = markdown_headings(body);
    let ghost hv = hs@.map_values(|h: Heading| heading_view(h));
    let lname = to_lowercase(section_name);
    let lname_c = chars_of(lname.as_str());
    let n = hs.len();
    // First heading naming the section.
    let mut m: usize = 0;
    while m < n && !names_heading(&hs[m].text, &lname_c)
        invariant
            n == hs@.len(),
            m <= n,
            hv == hs@.map_values(|h: Heading| heading_view(h)),
            lname_c@ == lowercase(section_name@),
            first_named(hv, section_name@, 0) == first_named(hv, section_name@, m as int),
        decreases n - m,
    {
        m += 1;
    }
    if m == n {
        return None;
    }
    // Another one after it?
    let mut k: usize = m + 1;
    while k < n && !names_heading(&hs[k].text, &lname_c)
        invariant
            n == hs@.len(),
            m < k <= n,
            hv == hs@.map_values(|h: Heading| heading_view(h)),
            lname_c@ == lowercase(section_name@),
            first_named(hv, section_name@, m + 1) == first_named(hv, section_name@, k as int),
        decreases n - k,
    {
        k += 1;
    }
    let level = hs[m].level;
    let mut j: usize = m + 1;
    while j < n && hs[j].level > level
        invariant
            n == hs@.len(),
            m < j <= n,
            hv == hs@.map_values(|h: Heading| heading_view(h)),
            level == hv[m as int].0,
            next_at_or_above(hv, level, m + 1) == next_at_or_above(hv, level, j as int),
        decreases n - j,
    {
        j += 1;
    }
    let section_end = if j < n {
        offset_for_line(text.as_slice(), hs[j].start_line)
    } else {
        text.len()
    };
    let heading_start = offset_for_line(text.as_slice(), hs[m].start_line);
    let heading_end = offset_after_line(text.as_slice(), hs[m].end_line);
    proof {
        assert(hv[m as int] == heading_view(hs@[m as int]));
        if j < n {
            assert(hv[j as int] == heading_view(hs@[j as int]));
        }
    }
    Some(SectionMatch { heading_start, heading_end, section_end, level, multiple_matches: k < n })
}

/// Bytes in the UTF-8 encoding of the first `k` characters of `s`.
pub open spec fn byte_offset(s: Seq<char>, k: int) -> nat {
    crate::text::byte_len(s.take(k))
}

/// A section match with its character offsets turned into byte offsets.
pub open spec fn in_bytes(body: Seq<char>, m: SectionMatch) -> SectionMatch {
    SectionMatch {
        heading_start: byte_offset(body, m.heading_start as int) as usize,
        heading_end: byte_offset(body, m.heading_end as int) as usize,
        section_end: byte_offset(body, m.section_end as int) as usize,
        level: m.level,
        multiple_matches: m.multiple_matches,
    }
}

proof fn lemma_byte_len_prefix(s: Seq<char>, j: int)
    requires
        0 <= j <= s.len(),
    ensures
        crate::text::byte_len(s.take(j)) <= crate::text::byte_len(s),
    decreases s.len(),
{
    if j < s.len() {
        assert(s.drop_last().take(j) =~= s.take(j));
        lemma_byte_len_prefix(s.drop_last(), j);
    } else {
        assert(s.take(j) =~= s);
    }
}

fn byte_offset_exec(cs: &[char], k: usize) -> (r: usize)
    requires
        k <= cs@.len(),
        crate::text::byte_len(cs@) <= usize::MAX,
    ensures
        r == byte_offset(cs@, k as int),
{
    let mut acc: usize = 0;
    let mut j: usize = 0;
    assert(cs@.take(0) =~= Seq::<char>::empty());
    while j < k
        invariant
            j <= k <= cs@.len(),
            crate::text::byte_len(cs@) <= usize::MAX,
            acc == crate::text::byte_len(cs@.take(j as int)),
        decreases k - j,
    {
        proof {
            assert(cs@.take(j + 1) =~= cs@.take(j as int).push(cs@[j as int]));
            crate::text::lemma_byte_len_push(cs@.take(j as int), cs@[j as int]);
            lemma_byte_len_prefix(cs@, j + 1);
        }
        acc = acc + crate::text::char_bytes(cs[j]);
        j += 1;
    }
    acc
}

/// Find the section named `section_name` (case-insensitive; any heading
/// level): the first top-level heading whose trimmed text matches, up to
/// the next heading of the same or a higher level. Offsets are byte
/// offsets into `body`.
pub fn find_section(body: &str, section_name: &str) -> (r: Option<SectionMatch>)
    requires
        crate::text::byte_len(body@) <= usize::MAX,
    ensures
        r == match section_spec(body@, section_name@) {
            Some(m) => Some(in_bytes(body@, m)),
            None => None::<SectionMatch>,
        },
{
    match find_section_chars(body, section_name) {
        Some(m) => {
            let cs = chars_of(body);
            Some(
                SectionMatch {
                    heading_start: byte_offset_exec(cs.as_slice(), m.heading_start),
                    heading_end: byte_offset_exec(cs.as_slice(), m.heading_end),
                    section_end: byte_offset_exec(cs.as_slice(), m.section_end),
                    level: m.level,
                    multiple_matches: m.multiple_matches,
                },
            )
        },
        None => None,
    }
}

/// The heading text, trimmed and lowercased, equals `lname`.
fn names_heading(text: &String, lname: &Vec<char>) -> (r: bool)
    ensures
        r == (lowercase(trim(text@)) == lname@),
{
    let t = chars_of(text.as_str());
    let tt = trim_chars(t.as_slice());
    let ts = string_of(tt.as_slice());
    let low = to_lowercase(ts.as_str());
    let lc = chars_of(low.as_str());
    crate::text::eq_chars(lc.as_slice(), lname.as_slice())
}

// ───────────────────────── edits ─────────────────────────

/// The text of a new section placed at the end of a body.
pub open spec fn new_section(body: Seq<char>, name: Seq<char>, content: Seq<char>) -> Seq<char> {
    trim_end(body) + "\n\n## "@ + name + "\n"@ + content
}

/// `apply_append`: `None` when the content is blank; otherwise the body
/// with the trimmed content appended to the section (right after its last
/// non-blank character, on a line of its own) or, when no heading names
/// the section, a new `## name` section at the end; and whether the
/// section existed.
pub open spec fn append_spec(body: Seq<char>, name: Seq<char>, content: Seq<char>) -> Option<
    (Seq<char>, bool),
> {
    let c = trim_end(content);
    if c.len() == 0 {
        None
    } else {
        match section_spec(body, name) {
            Some(m) => {
                let tp = trim_end(body.take(m.section_end as int)).len() as int;
                Some(
                    (
                        body.take(tp) + "\n"@ + c + "\n"@ + body.skip(m.section_end as int),
                        true,
                    ),
                )
            },
            None => Some((new_section(body, name, c + "\n"@), false)),
        }
    }
}

/// `apply_upsert`: the body with the section's content (everything after
/// its heading up to the section end) replaced by the trimmed content (on
/// a line of its own after the heading), or,
/// when no heading names the section, a new `## name` section at the end;
/// and whether the section existed. Blank content empties the section.
pub open spec fn upsert_spec(body: Seq<char>, name: Seq<char>, content: Seq<char>) -> (
    Seq<char>,
    bool,
) {
    let c = trim_end(content);
    let fill = if c.len() == 0 {
        Seq::empty()
    } else {
        c + "\n"@
    };
    match section_spec(body, name) {
        Some(m) => (heading_part(body.take(m.heading_end as int), fill) + fill + body.skip(
            m.section_end as int,
        ), true),
        None => (new_section(body, name, fill), false),
    }
}

/// The text up to the end of a section's heading, with a line break added
/// when the heading is the body's last line without one and content
/// follows, so that the content starts on a line of its own.
pub open spec fn heading_part(head: Seq<char>, fill: Seq<char>) -> Seq<char> {
    if fill.len() > 0 && head.len() > 0 && head.last() != '\n' {
        head.push('\n')
    } else {
        head
    }
}

fn new_section_chars(body: &[char], name: &str, content: &[char]) -> (r: Vec<char>)
    ensures
        r@ == new_section(body@, name@, content@),
{
    let mut r = trim_end_chars(body);
    let head = chars_of("\n\n## ");
    let nm = chars_of(name);
    let nl = chars_of("\n");
    push_all(&mut r, head.as_slice());
    push_all(&mut r, nm.as_slice());
    push_all(&mut r, nl.as_slice());
    push_all(&mut r, content);
    r
}

/// Append `content` to the section named `section_name`, or add the
/// section at the end. `None` when `content` is blank (nothing to do);
/// otherwise the new body and whether the section was found.
pub fn apply_append(body: &str, section_name: &str, content: &str) -> (r: Option<(String, bool)>)
    ensures
        match r {
            Some((s, f)) => append_spec(body@, section_name@, content@) == Some((s@, f)),
            None => append_spec(body@, section_name@, content@) is None,
        },
{
    let cc = chars_of(content);
    let c = trim_end_chars(cc.as_slice());
    if c.len() == 0 {
        return None;
    }
    let b = chars_of(body);
    let nl = chars_of("\n");
    match find_section_chars(body, section_name) {
        Some(m) => {
            let before = slice_chars(b.as_slice(), 0, m.section_end);
            let tp = trim_end_len(before.as_slice());
            let mut out = slice_chars(b.as_slice(), 0, tp);
            push_all(&mut out, nl.as_slice());
            push_all(&mut out, c.as_slice());
            push_all(&mut out, nl.as_slice());
            let tail = slice_chars(b.as_slice(), m.section_end, b.len());
            push_all(&mut out, tail.as_slice());
            proof {
                assert(before@ == b@.take(m.section_end as int));
                assert(b@.take(m.section_end as int).take(tp as int) == b@.take(tp as int));
                assert(tail@ == b@.skip(m.section_end as int));
            }
            Some((string_of(out.as_slice()), true))
        },
        None => {
            let mut filled = c;
            push_all(&mut filled, nl.as_slice());
            let out = new_section_chars(b.as_slice(), section_name, filled.as_slice());
            Some((string_of(out.as_slice()), false))
        },
    }
}

/// Replace the content of the section named `section_name` with
/// `content`, or add the section at the end. Returns the new body and
/// whether the section was found.
pub fn apply_upsert(body: &str, section_name: &str, content: &str) -> (r: (String, bool))
    ensures
        (r.0@, r.1) == upsert_spec(body@, section_name@, content@),
{
    let cc = chars_of(content);
    let c = trim_end_chars(cc.as_slice());
    let b = chars_of(body);
    let nl = chars_of("\n");
    let mut fill: Vec<char> = Vec::new();
    if c.len() > 0 {
        push_all(&mut fill, c.as_slice());
        push_all(&mut fill, nl.as_slice());
    }
    match find_section_chars(body, section_name) {
        Some(m) => {
            let mut out = slice_chars(b.as_slice(), 0, m.heading_end);
            if fill.len() > 0 && out.len() > 0 && out[out.len() - 1] != '\n' {
                out.push('\n');
            }
            push_all(&mut out, fill.as_slice());
            let tail = slice_chars(b.as_slice(), m.section_end, b.len());
            push_all(&mut out, tail.as_slice());
            proof {
                assert(tail@ == b@.skip(m.section_end as int));
            }
            (string_of(out.as_slice()), true)
        },
        None => {
            let out = new_section_chars(b.as_slice(), section_name, fill.as_slice());
            (string_of(out.as_slice()), false)
        },
    }
}

} // verus!
