//! Unlinked mentions: terms in a page body that name an indexed page but
//! are not wrapped in `[[…]]`.
//!
//! A body is read line by line. A leading frontmatter block and fenced code
//! blocks are skipped. On the other lines inline code, `[[…]]` links and
//! `http(s)://` URLs are masked; the rest is cut into tokens (runs of
//! letters, digits, `-`, `_` and combining accents; each CJK character is a
//! token of its own). At each token the longest run of at most
//! `MAX_WINDOW_TOKENS` tokens that the alias index knows is taken, and one
//! mention is reported per page it names, but for the page itself.

use crate::aliases::{norm, ref_views, AliasIndex, PageRef};
use crate::text::{
    alphanumeric, chars_of, find_from, find_spec, is_alphanumeric, is_ws, is_ws_char, lines,
    lines_of, occurs_at, occurs_at_exec, push_all, slice_chars, starts_with, starts_with_exec,
    owned, str_eq, string_of, trim_start, trim_start_chars,
};
use vstd::prelude::*;

verus! {

/// The longest run of tokens looked up as one term.
pub const MAX_WINDOW_TOKENS: usize = 4;

/// A line up to this many characters is its own context.
pub const CONTEXT_WIDTH: usize = 80;

/// Characters kept on each side of a match in a longer line.
pub const CONTEXT_RADIUS: usize = 40;

/// One unlinked mention. An ambiguous term gives one per page it names.
#[derive(Debug, Clone, PartialEq, Eq)]
pub struct UnlinkedMention {
    /// The body text that matched, tokens joined by single spaces.
    pub term: String,
    /// The slug of the page the term names.
    pub target_slug: String,
    /// 1-based line of the match in the body.
    pub line: u32,
    /// The surrounding line, cut around the match.
    pub context: String,
}

/// A mention as plain values: (term, target slug, line, context).
pub open spec fn mention_view(m: UnlinkedMention) -> (Seq<char>, Seq<char>, int, Seq<char>) {
    (m.term@, m.target_slug@, m.line as int, m.context@)
}

pub open spec fn mention_views(s: Seq<UnlinkedMention>) -> Seq<(Seq<char>, Seq<char>, int, Seq<char>)> {
    s.map_values(|m: UnlinkedMention| mention_view(m))
}

// ───────────────────────── which lines are prose ─────────────────────────

/// The first line at or after `j` that is exactly `---`.
pub open spec fn dash_line(ls: Seq<Seq<char>>, j: int) -> Option<int>
    decreases ls.len() - j,
{
    if j < 0 || j >= ls.len() {
        None
    } else if ls[j] == "---"@ {
        Some(j)
    } else {
        dash_line(ls, j + 1)
    }
}

/// The number of lines of a leading frontmatter block: a first line `---`
/// through the next `---` line; 0 when the body has none.
pub open spec fn frontmatter_len(ls: Seq<Seq<char>>) -> int {
    if ls.len() > 0 && ls[0] == "---"@ {
        match dash_line(ls, 1) {
            Some(j) => j + 1,
            None => 0,
        }
    } else {
        0
    }
}

/// A code fence line: it starts with three backticks after indentation.
pub open spec fn is_fence(l: Seq<char>) -> bool {
    starts_with(trim_start(l), "```"@)
}

/// A fence is open just before line `i`, counting fences from line `from`.
pub open spec fn in_fence(ls: Seq<Seq<char>>, from: int, i: int) -> bool
    decreases i - from,
{
    if i <= from {
        false
    } else {
        in_fence(ls, from, i - 1) != is_fence(ls[i - 1])
    }
}

/// Line `i` is prose: after the frontmatter, not a fence, not inside one.
pub open spec fn prose_line(ls: Seq<Seq<char>>, i: int) -> bool {
    &&& frontmatter_len(ls) <= i
    &&& !is_fence(ls[i])
    &&& !in_fence(ls, frontmatter_len(ls), i)
}

// ───────────────────────── masked spans of a line ─────────────────────────

/// The first whitespace position at or after `k`, or the line's end.
pub open spec fn ws_from(l: Seq<char>, k: int) -> int
    decreases l.len() - k,
{
    if k < 0 || k >= l.len() {
        l.len() as int
    } else if is_ws(l[k]) {
        k
    } else {
        ws_from(l, k + 1)
    }
}

/// The end of the masked span that starts at `k`: inline code through its
/// closing backtick, a `[[` link through its `]]`, a URL up to whitespace
/// (each to the line's end when unclosed); `k` when none starts there.
pub open spec fn masked_end(l: Seq<char>, k: int) -> int {
    if l[k] == '`' {
        match find_spec(l, seq!['`'], k + 1) {
            Some(j) => j + 1,
            None => l.len() as int,
        }
    } else if occurs_at(l, "[["@, k) {
        match find_spec(l, "]]"@, k + 2) {
            Some(j) => j + 2,
            None => l.len() as int,
        }
    } else if occurs_at(l, "http://"@, k) || occurs_at(l, "https://"@, k) {
        ws_from(l, k)
    } else {
        k
    }
}

/// For each position from `k` on, whether it is masked.
pub open spec fn mask_from(l: Seq<char>, k: int) -> Seq<bool>
    decreases l.len() - k,
{
    if k < 0 || k >= l.len() {
        Seq::empty()
    } else {
        let e = masked_end(l, k);
        if k < e <= l.len() {
            Seq::new((e - k) as nat, |_i: int| true) + mask_from(l, e)
        } else {
            seq![false] + mask_from(l, k + 1)
        }
    }
}

// ───────────────────────── tokens ─────────────────────────

/// A combining diacritical mark (U+0300..U+036F).
pub open spec fn combining(c: char) -> bool {
    '\u{300}' <= c && c <= '\u{36F}'
}

/// A CJK ideograph or syllable: each is a token of its own.
pub open spec fn cjk(c: char) -> bool {
    ||| ('\u{2E80}' <= c && c <= '\u{9FFF}')
    ||| ('\u{AC00}' <= c && c <= '\u{D7AF}')
    ||| ('\u{F900}' <= c && c <= '\u{FAFF}')
    ||| ('\u{20000}' <= c && c <= '\u{2FFFF}')
}

/// A character that can be part of a token.
pub open spec fn word_char(c: char) -> bool {
    alphanumeric(c) || c == '-' || c == '_' || combining(c)
}

/// Position `p` holds token text: unmasked and a word character.
pub open spec fn tok_at(l: Seq<char>, m: Seq<bool>, p: int) -> bool {
    0 <= p < l.len() && p < m.len() && !m[p] && word_char(l[p])
}

/// The end of a token run from `k`: the first position that is not token
/// text or is CJK.
pub open spec fn run_end(l: Seq<char>, m: Seq<bool>, k: int) -> int
    decreases l.len() - k,
{
    if k < 0 || k >= l.len() {
        l.len() as int
    } else if tok_at(l, m, k) && !cjk(l[k]) {
        run_end(l, m, k + 1)
    } else {
        k
    }
}

pub proof fn lemma_run_end(l: Seq<char>, m: Seq<bool>, k: int)
    requires
        0 <= k <= l.len(),
    ensures
        k <= run_end(l, m, k) <= l.len(),
    decreases l.len() - k,
{
    if k < l.len() && tok_at(l, m, k) && !cjk(l[k]) {
        lemma_run_end(l, m, k + 1);
    }
}

/// The end of the token that starts at `k`.
pub open spec fn token_end(l: Seq<char>, m: Seq<bool>, k: int) -> int {
    if cjk(l[k]) {
        k + 1
    } else {
        run_end(l, m, k + 1)
    }
}

/// The tokens from position `k` on, as (start, end) spans.
pub open spec fn tokens_from(l: Seq<char>, m: Seq<bool>, k: int) -> Seq<(int, int)>
    decreases l.len() - k,
{
    if k < 0 || k >= l.len() {
        Seq::empty()
    } else if !tok_at(l, m, k) {
        tokens_from(l, m, k + 1)
    } else {
        proof {
            lemma_run_end(l, m, k + 1);
        }
        seq![(k, token_end(l, m, k))] + tokens_from(l, m, token_end(l, m, k))
    }
}

/// Every token lies inside the line, starts at or after `k` and is not empty.
pub open spec fn spans_within(t: Seq<(int, int)>, k: int, n: int) -> bool {
    forall|i: int| 0 <= i < t.len() ==> k <= (#[trigger] t[i]).0 < t[i].1 <= n
}

pub proof fn lemma_tokens_within(l: Seq<char>, m: Seq<bool>, k: int)
    requires
        0 <= k,
    ensures
        spans_within(tokens_from(l, m, k), k, l.len() as int),
    decreases l.len() - k,
{
    if k < l.len() {
        if !tok_at(l, m, k) {
            lemma_tokens_within(l, m, k + 1);
        } else {
            lemma_run_end(l, m, k + 1);
            let e = token_end(l, m, k);
            lemma_tokens_within(l, m, e);
            let t = tokens_from(l, m, k);
            assert forall|i: int| 0 <= i < t.len() implies k <= (#[trigger] t[i]).0 < t[i].1
                <= l.len() by {
                if i > 0 {
                    assert(t[i] == tokens_from(l, m, e)[i - 1]);
                }
            }
        }
    }
}

proof fn lemma_run_tok(l: Seq<char>, m: Seq<bool>, k: int)
    requires
        0 <= k <= l.len(),
    ensures
        forall|p: int| k <= p < run_end(l, m, k) ==> #[trigger] tok_at(l, m, p),
    decreases l.len() - k,
{
    if k < l.len() && tok_at(l, m, k) && !cjk(l[k]) {
        lemma_run_tok(l, m, k + 1);
    }
}

/// Every position a token covers holds unmasked token text.
pub proof fn lemma_tokens_unmasked(l: Seq<char>, m: Seq<bool>, k: int)
    requires
        0 <= k,
    ensures
        forall|i: int, p: int|
            #![trigger tokens_from(l, m, k)[i], tok_at(l, m, p)]
            0 <= i < tokens_from(l, m, k).len() && tokens_from(l, m, k)[i].0 <= p < tokens_from(
                l,
                m,
                k,
            )[i].1 ==> tok_at(l, m, p),
    decreases l.len() - k,
{
    if k < l.len() {
        if !tok_at(l, m, k) {
            lemma_tokens_unmasked(l, m, k + 1);
            assert(tokens_from(l, m, k) == tokens_from(l, m, k + 1));
        } else {
            lemma_run_end(l, m, k + 1);
            lemma_run_tok(l, m, k + 1);
            let e = token_end(l, m, k);
            lemma_tokens_unmasked(l, m, e);
            let t = tokens_from(l, m, k);
            let rest = tokens_from(l, m, e);
            assert forall|i: int, p: int|
                #![trigger t[i], tok_at(l, m, p)]
                0 <= i < t.len() && t[i].0 <= p < t[i].1 implies tok_at(l, m, p) by {
                if i > 0 {
                    assert(t[i] == rest[i - 1]);
                } else if p > k {
                    assert(!cjk(l[k]));
                }
            }
        }
    }
}

/// Tokens come in order along the line and do not overlap.
pub open spec fn spans_ordered(t: Seq<(int, int)>) -> bool {
    forall|i: int, j: int| #![trigger t[i], t[j]] 0 <= i < j < t.len() ==> t[i].1 <= t[j].0
}

pub proof fn lemma_tokens_ordered(l: Seq<char>, m: Seq<bool>, k: int)
    requires
        0 <= k,
    ensures
        spans_ordered(tokens_from(l, m, k)),
    decreases l.len() - k,
{
    if k < l.len() {
        if !tok_at(l, m, k) {
            lemma_tokens_ordered(l, m, k + 1);
        } else {
            lemma_run_end(l, m, k + 1);
            let e = token_end(l, m, k);
            lemma_tokens_ordered(l, m, e);
            lemma_tokens_within(l, m, e);
            let t = tokens_from(l, m, k);
            let rest = tokens_from(l, m, e);
            assert forall|i: int, j: int| 0 <= i < j < t.len() implies #[trigger] t[i].1 <= #[trigger] t[j].0 by {
                assert(t[j] == rest[j - 1]);
                if i > 0 {
                    assert(t[i] == rest[i - 1]);
                }
            }
        }
    }
}

// ───────────────────────── terms, hits and context ─────────────────────────

/// The text of a token.
pub open spec fn tok_text(l: Seq<char>, t: (int, int)) -> Seq<char> {
    l.subrange(t.0, t.1)
}

/// What joins two tokens in a term: nothing between two CJK characters,
/// else one space.
pub open spec fn joint(a: Seq<char>, b: Seq<char>) -> Seq<char> {
    if a.len() > 0 && b.len() > 0 && cjk(a.last()) && cjk(b[0]) {
        Seq::empty()
    } else {
        seq![' ']
    }
}

/// The term made of the `w` tokens from token `i`.
pub open spec fn phrase(l: Seq<char>, t: Seq<(int, int)>, i: int, w: int) -> Seq<char>
    decreases w,
{
    if w <= 1 {
        tok_text(l, t[i])
    } else {
        let p = phrase(l, t, i, w - 1);
        let x = tok_text(l, t[i + w - 1]);
        p + joint(p, x) + x
    }
}

/// The pages the index lists for a raw term.
pub open spec fn hits(
    idx: Map<Seq<char>, Seq<(Seq<char>, Seq<char>, Seq<char>)>>,
    term: Seq<char>,
) -> Seq<(Seq<char>, Seq<char>, Seq<char>)> {
    if idx.contains_key(norm(term)) {
        idx[norm(term)]
    } else {
        Seq::empty()
    }
}

/// The number of tokens tried at token `i`.
pub open spec fn window(n: int, i: int) -> int {
    if n - i < MAX_WINDOW_TOKENS {
        n - i
    } else {
        MAX_WINDOW_TOKENS as int
    }
}

/// The length of the longest run of at most `w` tokens from `i` that names
/// a page; 0 when none does.
pub open spec fn match_len(
    idx: Map<Seq<char>, Seq<(Seq<char>, Seq<char>, Seq<char>)>>,
    l: Seq<char>,
    t: Seq<(int, int)>,
    i: int,
    w: int,
) -> int
    decreases w,
{
    if w <= 0 {
        0
    } else if hits(idx, phrase(l, t, i, w)).len() > 0 {
        w
    } else {
        match_len(idx, l, t, i, w - 1)
    }
}

pub proof fn lemma_match_len(
    idx: Map<Seq<char>, Seq<(Seq<char>, Seq<char>, Seq<char>)>>,
    l: Seq<char>,
    t: Seq<(int, int)>,
    i: int,
    w: int,
)
    ensures
        0 <= match_len(idx, l, t, i, w),
        w >= 0 ==> match_len(idx, l, t, i, w) <= w,
    decreases w,
{
    if w > 0 {
        lemma_match_len(idx, l, t, i, w - 1);
    }
}

/// The context of a match at `[s, e)` of line `l`: the whole line when it
/// is short, else the match with `CONTEXT_RADIUS` characters on each side,
/// an ellipsis marking each cut.
pub open spec fn context(l: Seq<char>, s: int, e: int) -> Seq<char> {
    if l.len() <= CONTEXT_WIDTH {
        l
    } else {
        let a = if s > CONTEXT_RADIUS {
            s - CONTEXT_RADIUS
        } else {
            0
        };
        let b = if e + CONTEXT_RADIUS < l.len() {
            e + CONTEXT_RADIUS
        } else {
            l.len() as int
        };
        (if a > 0 {
            seq!['\u{2026}']
        } else {
            Seq::empty()
        }) + l.subrange(a, b) + (if b < l.len() {
            seq!['\u{2026}']
        } else {
            Seq::empty()
        })
    }
}

/// One mention per page of `refs`, but for the page `self_slug`.
pub open spec fn emit(
    refs: Seq<(Seq<char>, Seq<char>, Seq<char>)>,
    term: Seq<char>,
    line: int,
    ctx: Seq<char>,
    self_slug: Seq<char>,
) -> Seq<(Seq<char>, Seq<char>, int, Seq<char>)>
    decreases refs.len(),
{
    if refs.len() == 0 {
        Seq::empty()
    } else {
        emit(refs.drop_last(), term, line, ctx, self_slug) + (if refs.last().0 != self_slug {
            seq![(term, refs.last().0, line, ctx)]
        } else {
            Seq::empty()
        })
    }
}

/// The mentions of line `l` (numbered `line`) from its token `i` on: the
/// longest run that names a page is taken and scanning resumes after it;
/// otherwise scanning moves one token on.
pub open spec fn line_mentions(
    idx: Map<Seq<char>, Seq<(Seq<char>, Seq<char>, Seq<char>)>>,
    l: Seq<char>,
    t: Seq<(int, int)>,
    i: int,
    line: int,
    self_slug: Seq<char>,
) -> Seq<(Seq<char>, Seq<char>, int, Seq<char>)>
    decreases t.len() - i,
{
    if i < 0 || i >= t.len() {
        Seq::empty()
    } else {
        let w = match_len(idx, l, t, i, window(t.len() as int, i));
        proof {
            lemma_match_len(idx, l, t, i, window(t.len() as int, i));
        }
        if w == 0 {
            line_mentions(idx, l, t, i + 1, line, self_slug)
        } else {
            let p = phrase(l, t, i, w);
            emit(hits(idx, p), p, line, context(l, t[i].0, t[i + w - 1].1), self_slug)
                + line_mentions(idx, l, t, i + w, line, self_slug)
        }
    }
}

/// The mentions of one prose line.
pub open spec fn line_scan(
    idx: Map<Seq<char>, Seq<(Seq<char>, Seq<char>, Seq<char>)>>,
    l: Seq<char>,
    line: int,
    self_slug: Seq<char>,
) -> Seq<(Seq<char>, Seq<char>, int, Seq<char>)> {
    line_mentions(idx, l, tokens_from(l, mask_from(l, 0), 0), 0, line, self_slug)
}

/// The mentions of the first `n` lines.
pub open spec fn mentions_upto(
    idx: Map<Seq<char>, Seq<(Seq<char>, Seq<char>, Seq<char>)>>,
    ls: Seq<Seq<char>>,
    n: int,
    self_slug: Seq<char>,
) -> Seq<(Seq<char>, Seq<char>, int, Seq<char>)>
    decreases n,
{
    if n <= 0 {
        Seq::empty()
    } else {
        mentions_upto(idx, ls, n - 1, self_slug) + (if prose_line(ls, n - 1) {
            line_scan(idx, ls[n - 1], n, self_slug)
        } else {
            Seq::empty()
        })
    }
}

/// The unlinked mentions of a body, in line order, then in order along the
/// line, then in the order the index lists the pages.
pub open spec fn body_mentions(
    idx: Map<Seq<char>, Seq<(Seq<char>, Seq<char>, Seq<char>)>>,
    body: Seq<char>,
    self_slug: Seq<char>,
) -> Seq<(Seq<char>, Seq<char>, int, Seq<char>)> {
    mentions_upto(idx, lines(body), lines(body).len() as int, self_slug)
}

// ───────────────────────── what a mention is ─────────────────────────

/// `m` is a mention of some page other than `self_slug` on one of the
/// first `n` lines, and the index lists that page under `m`'s term.
pub open spec fn names_indexed_page(
    idx: Map<Seq<char>, Seq<(Seq<char>, Seq<char>, Seq<char>)>>,
    m: (Seq<char>, Seq<char>, int, Seq<char>),
    self_slug: Seq<char>,
    n: int,
) -> bool {
    &&& m.1 != self_slug
    &&& 1 <= m.2 <= n
    &&& exists|k: int| 0 <= k < hits(idx, m.0).len() && (#[trigger] hits(idx, m.0)[k]).0 == m.1
}

proof fn lemma_emit_named(
    refs: Seq<(Seq<char>, Seq<char>, Seq<char>)>,
    term: Seq<char>,
    line: int,
    ctx: Seq<char>,
    self_slug: Seq<char>,
)
    ensures
        forall|i: int|
            0 <= i < emit(refs, term, line, ctx, self_slug).len() ==> {
                let m = #[trigger] emit(refs, term, line, ctx, self_slug)[i];
                &&& m.0 == term
                &&& m.2 == line
                &&& m.1 != self_slug
                &&& exists|k: int| 0 <= k < refs.len() && (#[trigger] refs[k]).0 == m.1
            },
    decreases refs.len(),
{
    if refs.len() > 0 {
        let init = refs.drop_last();
        lemma_emit_named(init, term, line, ctx, self_slug);
        let e = emit(refs, term, line, ctx, self_slug);
        let ei = emit(init, term, line, ctx, self_slug);
        assert forall|i: int| 0 <= i < e.len() implies {
            let m = #[trigger] e[i];
            &&& m.0 == term
            &&& m.2 == line
            &&& m.1 != self_slug
            &&& exists|k: int| 0 <= k < refs.len() && (#[trigger] refs[k]).0 == m.1
        } by {
            if i < ei.len() {
                assert(e[i] == ei[i]);
                let k = choose|k: int| 0 <= k < init.len() && (#[trigger] init[k]).0 == ei[i].1;
                assert(refs[k] == init[k]);
            } else {
                assert(refs[refs.len() - 1] == refs.last());
            }
        }
    }
}

proof fn lemma_line_mentions_named(
    idx: Map<Seq<char>, Seq<(Seq<char>, Seq<char>, Seq<char>)>>,
    l: Seq<char>,
    t: Seq<(int, int)>,
    i: int,
    line: int,
    self_slug: Seq<char>,
)
    ensures
        forall|j: int|
            0 <= j < line_mentions(idx, l, t, i, line, self_slug).len() ==> {
                let m = #[trigger] line_mentions(idx, l, t, i, line, self_slug)[j];
                &&& m.2 == line
                &&& m.1 != self_slug
                &&& exists|k: int| 0 <= k < hits(idx, m.0).len() && (#[trigger] hits(idx, m.0)[k]).0 == m.1
            },
    decreases t.len() - i,
{
    if 0 <= i < t.len() {
        let w = match_len(idx, l, t, i, window(t.len() as int, i));
        lemma_match_len(idx, l, t, i, window(t.len() as int, i));
        if w == 0 {
            lemma_line_mentions_named(idx, l, t, i + 1, line, self_slug);
            assert(line_mentions(idx, l, t, i, line, self_slug) == line_mentions(
                idx,
                l,
                t,
                i + 1,
                line,
                self_slug,
            ));
        } else {
            let p = phrase(l, t, i, w);
            let ctx = context(l, t[i].0, t[i + w - 1].1);
            let em = emit(hits(idx, p), p, line, ctx, self_slug);
            let rest = line_mentions(idx, l, t, i + w, line, self_slug);
            lemma_emit_named(hits(idx, p), p, line, ctx, self_slug);
            lemma_line_mentions_named(idx, l, t, i + w, line, self_slug);
            let all = line_mentions(idx, l, t, i, line, self_slug);
            assert(all == em + rest);
            assert forall|j: int| 0 <= j < all.len() implies {
                let m = #[trigger] all[j];
                &&& m.2 == line
                &&& m.1 != self_slug
                &&& exists|k: int| 0 <= k < hits(idx, m.0).len() && (#[trigger] hits(idx, m.0)[k]).0 == m.1
            } by {
                if j < em.len() {
                    assert(all[j] == em[j]);
                    let m = em[j];
                    let k = choose|k: int| 0 <= k < hits(idx, p).len() && (#[trigger] hits(idx, p)[k]).0 == m.1;
                    assert(hits(idx, m.0)[k].0 == m.1);
                } else {
                    assert(all[j] == rest[j - em.len()]);
                }
            }
        }
    }
}

/// Every mention of the first `n` lines names an indexed page other than
/// the page itself, on one of those lines.
pub proof fn lemma_mentions_upto_named(
    idx: Map<Seq<char>, Seq<(Seq<char>, Seq<char>, Seq<char>)>>,
    ls: Seq<Seq<char>>,
    n: int,
    self_slug: Seq<char>,
)
    ensures
        forall|j: int|
            0 <= j < mentions_upto(idx, ls, n, self_slug).len() ==> names_indexed_page(
                idx,
                #[trigger] mentions_upto(idx, ls, n, self_slug)[j],
                self_slug,
                n,
            ),
    decreases n,
{
    if n > 0 {
        lemma_mentions_upto_named(idx, ls, n - 1, self_slug);
        let before = mentions_upto(idx, ls, n - 1, self_slug);
        let here = if prose_line(ls, n - 1) {
            line_scan(idx, ls[n - 1], n, self_slug)
        } else {
            Seq::empty()
        };
        let l = ls[n - 1];
        lemma_line_mentions_named(idx, l, tokens_from(l, mask_from(l, 0), 0), 0, n, self_slug);
        let all = mentions_upto(idx, ls, n, self_slug);
        assert(all == before + here);
        assert forall|j: int| 0 <= j < all.len() implies names_indexed_page(
            idx,
            #[trigger] all[j],
            self_slug,
            n,
        ) by {
            if j < before.len() {
                assert(all[j] == before[j]);
                assert(names_indexed_page(idx, before[j], self_slug, n - 1));
            } else {
                assert(all[j] == here[j - before.len()]);
            }
        }
    }
}

// ───────────────────────── scanning a line ─────────────────────────

fn ws_from_exec(l: &[char], k: usize) -> (r: usize)
    requires
        k <= l@.len(),
    ensures
        r == ws_from(l@, k as int),
        k <= r <= l@.len(),
{
    let mut i = k;
    while i < l.len() && !is_ws_char(l[i])
        invariant
            k <= i <= l@.len(),
            ws_from(l@, k as int) == ws_from(l@, i as int),
        decreases l@.len() - i,
    {
        i += 1;
    }
    i
}

fn masked_end_exec(l: &[char], k: usize) -> (e: usize)
    requires
        k < l@.len(),
    ensures
        e == masked_end(l@, k as int),
        k <= e <= l@.len(),
{
    proof {
        reveal_strlit("[[");
        reveal_strlit("]]");
        reveal_strlit("http://");
        reveal_strlit("https://");
    }
    proof {
        if occurs_at(l@, "[["@, k as int) {
            assert(l@[k as int] == l@.subrange(k as int, k + 2)[0]);
        }
        if occurs_at(l@, "http://"@, k as int) {
            assert(l@[k as int] == l@.subrange(k as int, k + 7)[0]);
        }
        if occurs_at(l@, "https://"@, k as int) {
            assert(l@[k as int] == l@.subrange(k as int, k + 8)[0]);
        }
    }
    if l[k] == '`' {
        let tick = chars_of("`");
        proof {
            reveal_strlit("`");
            assert(tick@ =~= seq!['`']);
        }
        match find_from(l, tick.as_slice(), k + 1) {
            Some(j) => j + 1,
            None => l.len(),
        }
    } else if l[k] == '[' && occurs_at_exec(l, chars_of("[[").as_slice(), k) {
        match find_from(l, chars_of("]]").as_slice(), k + 2) {
            Some(j) => j + 2,
            None => l.len(),
        }
    } else if l[k] == 'h' && (occurs_at_exec(l, chars_of("http://").as_slice(), k) || occurs_at_exec(
        l,
        chars_of("https://").as_slice(),
        k,
    )) {
        ws_from_exec(l, k)
    } else {
        k
    }
}

/// Which characters of a line are masked: inside inline code, a `[[…]]`
/// link or a URL.
fn mask_of(l: &[char]) -> (m: Vec<bool>)
    ensures
        m@ == mask_from(l@, 0),
        m@.len() == l@.len(),
{
    let mut m: Vec<bool> = Vec::new();
    let mut k: usize = 0;
    while k < l.len()
        invariant
            k <= l@.len(),
            m@.len() == k,
            m@ + mask_from(l@, k as int) == mask_from(l@, 0),
        decreases l@.len() - k,
    {
        let e = masked_end_exec(l, k);
        let ghost m0 = m@;
        if e > k {
            let mut j = k;
            while j < e
                invariant
                    k <= j <= e <= l@.len(),
                    m@ =~= m0 + Seq::new((j - k) as nat, |_i: int| true),
                decreases e - j,
            {
                m.push(true);
                j += 1;
            }
            proof {
                assert(m0 + mask_from(l@, k as int) =~= m@ + mask_from(l@, e as int));
            }
            k = e;
        } else {
            m.push(false);
            proof {
                assert(m0 + mask_from(l@, k as int) =~= m@ + mask_from(l@, k + 1));
            }
            k += 1;
        }
    }
    proof {
        assert(m@ + mask_from(l@, k as int) =~= m@);
    }
    m
}

fn combining_exec(c: char) -> (r: bool)
    ensures
        r == combining(c),
{
    '\u{300}' <= c && c <= '\u{36F}'
}

fn cjk_exec(c: char) -> (r: bool)
    ensures
        r == cjk(c),
{
    ('\u{2E80}' <= c && c <= '\u{9FFF}') || ('\u{AC00}' <= c && c <= '\u{D7AF}') || ('\u{F900}' <= c
        && c <= '\u{FAFF}') || ('\u{20000}' <= c && c <= '\u{2FFFF}')
}

fn tok_at_exec(l: &[char], m: &Vec<bool>, p: usize) -> (r: bool)
    requires
        m@.len() == l@.len(),
    ensures
        r == tok_at(l@, m@, p as int),
{
    p < l.len() && !m[p] && (is_alphanumeric(l[p]) || l[p] == '-' || l[p] == '_' || combining_exec(
        l[p],
    ))
}

fn run_end_exec(l: &[char], m: &Vec<bool>, k: usize) -> (r: usize)
    requires
        k <= l@.len(),
        m@.len() == l@.len(),
    ensures
        r == run_end(l@, m@, k as int),
        k <= r <= l@.len(),
{
    let mut i = k;
    while i < l.len() && tok_at_exec(l, m, i) && !cjk_exec(l[i])
        invariant
            k <= i <= l@.len(),
            m@.len() == l@.len(),
            run_end(l@, m@, k as int) == run_end(l@, m@, i as int),
        decreases l@.len() - i,
    {
        i += 1;
    }
    i
}

/// Token spans as integers.
pub open spec fn spans(v: Seq<(usize, usize)>) -> Seq<(int, int)> {
    v.map_values(|p: (usize, usize)| (p.0 as int, p.1 as int))
}

/// The tokens of a line under its mask, as (start, end) spans.
fn tokens_of(l: &[char], m: &Vec<bool>) -> (r: Vec<(usize, usize)>)
    requires
        m@.len() == l@.len(),
    ensures
        spans(r@) == tokens_from(l@, m@, 0),
{
    let mut r: Vec<(usize, usize)> = Vec::new();
    let mut k: usize = 0;
    proof {
        assert(spans(r@) =~= Seq::<(int, int)>::empty());
    }
    while k < l.len()
        invariant
            k <= l@.len(),
            m@.len() == l@.len(),
            spans(r@) + tokens_from(l@, m@, k as int) == tokens_from(l@, m@, 0),
        decreases l@.len() - k,
    {
        if !tok_at_exec(l, m, k) {
            k += 1;
        } else {
            let e = if cjk_exec(l[k]) {
                k + 1
            } else {
                run_end_exec(l, m, k + 1)
            };
            let ghost r0 = r@;
            r.push((k, e));
            proof {
                assert(spans(r@) =~= spans(r0).push((k as int, e as int)));
                assert(spans(r0) + tokens_from(l@, m@, k as int) =~= spans(r@) + tokens_from(
                    l@,
                    m@,
                    e as int,
                ));
            }
            k = e;
        }
    }
    proof {
        assert(spans(r@) + tokens_from(l@, m@, k as int) =~= spans(r@));
    }
    r
}

// ───────────────────────── terms and context ─────────────────────────

fn phrase_exec(l: &[char], toks: &Vec<(usize, usize)>, i: usize, w: usize) -> (r: Vec<char>)
    requires
        spans_within(spans(toks@), 0, l@.len() as int),
        1 <= w,
        i + w <= toks@.len(),
    ensures
        r@ == phrase(l@, spans(toks@), i as int, w as int),
{
    let ghost t = spans(toks@);
    assert(t[i as int] == (toks@[i as int].0 as int, toks@[i as int].1 as int));
    let (s0, e0) = toks[i];
    let mut p = slice_chars(l, s0, e0);
    let mut j: usize = 1;
    while j < w
        invariant
            t == spans(toks@),
            spans_within(t, 0, l@.len() as int),
            1 <= j <= w,
            i + w <= toks@.len(),
            toks@.len() == toks.len(),
            p@ == phrase(l@, t, i as int, j as int),
        decreases w - j,
    {
        assert(t[i + j] == (toks@[i + j].0 as int, toks@[i + j].1 as int));
        let (s, e) = toks[i + j];
        let x = slice_chars(l, s, e);
        let ghost p0 = p@;
        if !(p.len() > 0 && x.len() > 0 && cjk_exec(p[p.len() - 1]) && cjk_exec(x[0])) {
            p.push(' ');
        }
        push_all(&mut p, x.as_slice());
        proof {
            assert(p@ =~= p0 + joint(p0, x@) + x@);
        }
        j += 1;
    }
    p
}

fn context_exec(l: &[char], s: usize, e: usize) -> (r: Vec<char>)
    requires
        s <= e <= l@.len(),
    ensures
        r@ == context(l@, s as int, e as int),
{
    if l.len() <= CONTEXT_WIDTH {
        return slice_chars(l, 0, l.len());
    }
    let a = if s > CONTEXT_RADIUS {
        s - CONTEXT_RADIUS
    } else {
        0
    };
    let b = if e < l.len() - CONTEXT_RADIUS {
        e + CONTEXT_RADIUS
    } else {
        l.len()
    };
    let mut r: Vec<char> = Vec::new();
    if a > 0 {
        r.push('\u{2026}');
    }
    push_all(&mut r, slice_chars(l, a, b).as_slice());
    if b < l.len() {
        r.push('\u{2026}');
    }
    proof {
        assert(r@ =~= context(l@, s as int, e as int));
    }
    r
}

/// The length of the longest run of at most `maxw` tokens from token `i`
/// that names a page, or 0.
fn longest_match(l: &[char], toks: &Vec<(usize, usize)>, i: usize, maxw: usize, index: &AliasIndex) -> (w:
    usize)
    requires
        spans_within(spans(toks@), 0, l@.len() as int),
        i + maxw <= toks@.len(),
    ensures
        w == match_len(index@, l@, spans(toks@), i as int, maxw as int),
{
    let mut w = maxw;
    while w > 0
        invariant
            w <= maxw,
            spans_within(spans(toks@), 0, l@.len() as int),
            i + maxw <= toks@.len(),
            match_len(index@, l@, spans(toks@), i as int, maxw as int) == match_len(
                index@,
                l@,
                spans(toks@),
                i as int,
                w as int,
            ),
        decreases w,
    {
        let p = phrase_exec(l, toks, i, w);
        let ps = string_of(p.as_slice());
        let refs = index.lookup(ps.as_str());
        assert(ref_views(refs@).len() == refs@.len());
        if refs.len() > 0 {
            return w;
        }
        w -= 1;
    }
    0
}

/// Append one mention per page of `refs`, but for the page itself.
fn emit_into(
    out: &mut Vec<UnlinkedMention>,
    refs: &[PageRef],
    term: &Vec<char>,
    line: u32,
    ctx: &Vec<char>,
    self_slug: &str,
)
    ensures
        mention_views(final(out)@) == mention_views(old(out)@) + emit(
            ref_views(refs@),
            term@,
            line as int,
            ctx@,
            self_slug@,
        ),
{
    let ghost o0 = mention_views(out@);
    let ghost rv = ref_views(refs@);
    let mut k: usize = 0;
    proof {
        assert(rv.take(0) =~= Seq::empty());
        assert(o0 + emit(rv.take(0), term@, line as int, ctx@, self_slug@) =~= o0);
    }
    while k < refs.len()
        invariant
            k <= refs@.len(),
            rv == ref_views(refs@),
            mention_views(out@) == o0 + emit(rv.take(k as int), term@, line as int, ctx@, self_slug@),
        decreases refs@.len() - k,
    {
        let ghost before = mention_views(out@);
        assert(rv.take(k + 1).drop_last() =~= rv.take(k as int));
        assert(rv.take(k + 1).last() == rv[k as int]);
        if !str_eq(refs[k].slug.as_str(), self_slug) {
            let ghost out0 = out@;
            out.push(
                UnlinkedMention {
                    term: string_of(term.as_slice()),
                    target_slug: owned(refs[k].slug.as_str()),
                    line,
                    context: string_of(ctx.as_slice()),
                },
            );
            proof {
                assert(mention_views(out@) =~= mention_views(out0).push(
                    (term@, refs@[k as int].slug@, line as int, ctx@),
                ));
                assert(mention_views(out@) =~= o0 + emit(
                    rv.take(k + 1),
                    term@,
                    line as int,
                    ctx@,
                    self_slug@,
                ));
            }
        } else {
            proof {
                assert(mention_views(out@) =~= o0 + emit(
                    rv.take(k + 1),
                    term@,
                    line as int,
                    ctx@,
                    self_slug@,
                ));
            }
        }
        k += 1;
    }
    proof {
        assert(rv.take(k as int) =~= rv);
    }
}

/// The mentions of one prose line, numbered `line`.
fn scan_line(l: &[char], line: u32, index: &AliasIndex, self_slug: &str) -> (r: Vec<UnlinkedMention>)
    ensures
        mention_views(r@) == line_scan(index@, l@, line as int, self_slug@),
{
    let m = mask_of(l);
    let toks = tokens_of(l, &m);
    let ghost t = spans(toks@);
    proof {
        lemma_tokens_within(l@, m@, 0);
    }
    let mut out: Vec<UnlinkedMention> = Vec::new();
    let mut i: usize = 0;
    proof {
        assert(mention_views(out@) =~= Seq::empty());
        assert(Seq::empty() + line_mentions(index@, l@, t, 0, line as int, self_slug@) =~= line_mentions(
            index@,
            l@,
            t,
            0,
            line as int,
            self_slug@,
        ));
    }
    while i < toks.len()
        invariant
            i <= toks@.len(),
            t == spans(toks@),
            t.len() == toks@.len(),
            spans_within(t, 0, l@.len() as int),
            t == tokens_from(l@, m@, 0),
            m@ == mask_from(l@, 0),
            mention_views(out@) + line_mentions(index@, l@, t, i as int, line as int, self_slug@)
                == line_mentions(index@, l@, t, 0, line as int, self_slug@),
        decreases toks@.len() - i,
    {
        let maxw = if toks.len() - i < MAX_WINDOW_TOKENS {
            toks.len() - i
        } else {
            MAX_WINDOW_TOKENS
        };
        assert(maxw == window(t.len() as int, i as int));
        let w = longest_match(l, &toks, i, maxw, index);
        proof {
            lemma_match_len(index@, l@, t, i as int, maxw as int);
        }
        let ghost before = mention_views(out@);
        if w == 0 {
            i += 1;
        } else {
            let p = phrase_exec(l, &toks, i, w);
            let ps = string_of(p.as_slice());
            let refs = index.lookup(ps.as_str());
            assert(t[i as int] == (toks@[i as int].0 as int, toks@[i as int].1 as int));
            assert(t[i + w - 1] == (toks@[i + w - 1].0 as int, toks@[i + w - 1].1 as int));
            let s = toks[i].0;
            let e = toks[i + w - 1].1;
            assert(s <= e) by {
                assert(t[i as int].0 < t[i as int].1);
                assert(t[i + w - 1].0 < t[i + w - 1].1);
                // tokens are in order along the line
                lemma_tokens_ordered(l@, m@, 0);
            }
            let ctx = context_exec(l, s, e);
            emit_into(&mut out, refs, &p, line, &ctx, self_slug);
            proof {
                let em = emit(
                    hits(index@, p@),
                    p@,
                    line as int,
                    context(l@, t[i as int].0, t[i + w - 1].1),
                    self_slug@,
                );
                assert(mention_views(out@) == before + em);
                assert(line_mentions(index@, l@, t, i as int, line as int, self_slug@) == em
                    + line_mentions(index@, l@, t, i + w, line as int, self_slug@));
                assert(mention_views(out@) + line_mentions(index@, l@, t, i + w, line as int, self_slug@)
                    =~= before + line_mentions(index@, l@, t, i as int, line as int, self_slug@));
            }
            i = i + w;
        }
    }
    proof {
        assert(line_mentions(index@, l@, t, i as int, line as int, self_slug@) =~= Seq::empty());
        assert(mention_views(out@) + Seq::empty() =~= mention_views(out@));
    }
    out
}

// ───────────────────────── the body ─────────────────────────

pub proof fn lemma_lines_len(s: Seq<char>)
    ensures
        lines(s).len() <= s.len(),
    decreases s.len(),
{
    if s.len() > 0 {
        crate::text::lemma_newline_index(s);
        let i = crate::text::newline_index(s);
        if i < s.len() {
            lemma_lines_len(s.skip(i + 1));
        }
    }
}

fn is_dash_line(l: &Vec<char>) -> (r: bool)
    ensures
        r == (l@ == "---"@),
{
    let d = chars_of("---");
    crate::text::eq_chars(l.as_slice(), d.as_slice())
}

fn frontmatter_len_exec(ls: &Vec<Vec<char>>, Ghost(v): Ghost<Seq<Seq<char>>>) -> (r: usize)
    requires
        ls@.len() == v.len(),
        forall|k: int| 0 <= k < v.len() ==> (#[trigger] ls@[k])@ == v[k],
    ensures
        r == frontmatter_len(v),
        r <= v.len(),
{
    if ls.len() == 0 {
        return 0;
    }
    assert(ls@[0]@ == v[0]);
    if !is_dash_line(&ls[0]) {
        return 0;
    }
    let mut j: usize = 1;
    while j < ls.len()
        invariant
            1 <= j <= ls@.len(),
            ls@.len() == v.len(),
            forall|k: int| 0 <= k < v.len() ==> (#[trigger] ls@[k])@ == v[k],
            dash_line(v, 1) == dash_line(v, j as int),
            v[0] == "---"@,
        decreases ls@.len() - j,
    {
        assert(ls@[j as int]@ == v[j as int]);
        if is_dash_line(&ls[j]) {
            return j + 1;
        }
        j += 1;
    }
    0
}

fn is_fence_exec(l: &[char]) -> (r: bool)
    ensures
        r == is_fence(l@),
{
    let t = trim_start_chars(l);
    let f = chars_of("```");
    starts_with_exec(t.as_slice(), f.as_slice())
}

/// Scan `body` for terms that name a page of `index` but are not wrapped in
/// `[[…]]`. A frontmatter block at the top, fenced code, inline code,
/// links and URLs are skipped; line numbers count from the body's first
/// line; mentions of the page `self_slug` are dropped.
pub fn find_unlinked_mentions(body: &str, index: &AliasIndex, self_slug: &str) -> (r: Vec<
    UnlinkedMention,
>)
    requires
        body@.len() < u32::MAX,
    ensures
        mention_views(r@) == body_mentions(index@, body@, self_slug@),
{
    let cs = chars_of(body);
    let ls = lines_of(cs.as_slice());
    let ghost v = lines(body@);
    proof {
        lemma_lines_len(body@);
    }
    let fm = frontmatter_len_exec(&ls, Ghost(v));
    let mut out: Vec<UnlinkedMention> = Vec::new();
    let mut fence = false;
    let mut i: usize = 0;
    proof {
        assert(mention_views(out@) =~= Seq::empty());
    }
    while i < ls.len()
        invariant
            i <= ls@.len(),
            ls@.len() == v.len(),
            v.len() < u32::MAX,
            forall|k: int| 0 <= k < v.len() ==> (#[trigger] ls@[k])@ == v[k],
            fm == frontmatter_len(v),
            fence == in_fence(v, fm as int, i as int),
            mention_views(out@) == mentions_upto(index@, v, i as int, self_slug@),
        decreases ls@.len() - i,
    {
        assert(ls@[i as int]@ == v[i as int]);
        let ghost before = mention_views(out@);
        if i >= fm {
            if is_fence_exec(ls[i].as_slice()) {
                fence = !fence;
                proof {
                    assert(mention_views(out@) =~= before + Seq::empty());
                }
            } else if !fence {
                let mut found = scan_line(ls[i].as_slice(), (i + 1) as u32, index, self_slug);
                let ghost got = mention_views(found@);
                let ghost out0 = out@;
                out.append(&mut found);
                proof {
                    assert(mention_views(out@) =~= mention_views(out0) + got);
                }
            } else {
                proof {
                    assert(mention_views(out@) =~= before + Seq::empty());
                }
            }
        } else {
            proof {
                assert(mention_views(out@) =~= before + Seq::empty());
            }
        }
        i += 1;
    }
    out
}

} // verus!
