//! Character-sequence helpers shared by the text-processing modules.
//!
//! Strings are handled as sequences of `char`: the view of a `str` or a
//! `String` is its `Seq<char>`, and every algorithm in this crate works on
//! that view.

use unicode_normalization::UnicodeNormalization;
use vstd::prelude::*;

verus! {

// ───────────────────────── conversions ─────────────────────────

/// Copy the characters of `s` into a vector.
pub fn chars_of(s: &str) -> (r: Vec<char>)
    ensures
        r@ == s@,
{
    let mut r: Vec<char> = Vec::new();
    for c in it: s.chars()
        invariant
            r@ == it.seq().take(it.index()),
    {
        r.push(c);
    }
    r
}

/// `FromIterator<char>` for `String`: builds a string holding exactly
/// the given characters, in order.
#[verifier::external_body]
pub(crate) fn string_of(v: &[char]) -> (r: String)
    ensures
        r@ == v@,
{
    v.iter().collect()
}

/// Append one slice of characters to another, as a new vector.
pub fn concat(a: &[char], b: &[char]) -> (r: Vec<char>)
    ensures
        r@ == a@ + b@,
{
    let mut r: Vec<char> = Vec::new();
    push_all(&mut r, a);
    push_all(&mut r, b);
    r
}

/// Push every character of `s` onto `v`.
pub fn push_all(v: &mut Vec<char>, s: &[char])
    ensures
        final(v)@ == old(v)@ + s@,
{
    let ghost v0 = v@;
    let mut i: usize = 0;
    while i < s.len()
        invariant
            i <= s@.len(),
            v@ == v0 + s@.take(i as int),
        decreases s@.len() - i,
    {
        v.push(s[i]);
        i += 1;
        assert(s@.take(i as int) == s@.take((i - 1) as int).push(s@[i - 1]));
    }
    assert(s@.take(i as int) == s@);
}

/// Copy the characters in `[from, to)` of `s`.
pub fn slice_chars(s: &[char], from: usize, to: usize) -> (r: Vec<char>)
    requires
        from <= to <= s@.len(),
    ensures
        r@ == s@.subrange(from as int, to as int),
{
    let mut r: Vec<char> = Vec::new();
    let mut i = from;
    while i < to
        invariant
            from <= i <= to <= s@.len(),
            r@ == s@.subrange(from as int, i as int),
        decreases to - i,
    {
        r.push(s[i]);
        i += 1;
        assert(s@.subrange(from as int, i as int) == s@.subrange(from as int, (i - 1) as int).push(
            s@[i - 1],
        ));
    }
    r
}

/// Character-wise equality of two slices.
pub fn eq_chars(a: &[char], b: &[char]) -> (r: bool)
    ensures
        r == (a@ == b@),
{
    if a.len() != b.len() {
        return false;
    }
    let mut i: usize = 0;
    while i < a.len()
        invariant
            a@.len() == b@.len(),
            i <= a@.len(),
            forall|j: int| 0 <= j < i ==> a@[j] == b@[j],
        decreases a@.len() - i,
    {
        if a[i] != b[i] {
            return false;
        }
        i += 1;
    }
    assert(a@ =~= b@);
    true
}

// ───────────────────────── whitespace & trimming ─────────────────────────

/// The Unicode `White_Space` property, as `char::is_whitespace` documents it.
pub open spec fn is_ws(c: char) -> bool {
    ||| c == '\t'
    ||| c == '\n'
    ||| c == '\u{0B}'
    ||| c == '\u{0C}'
    ||| c == '\r'
    ||| c == ' '
    ||| c == '\u{85}'
    ||| c == '\u{A0}'
    ||| c == '\u{1680}'
    ||| ('\u{2000}' <= c && c <= '\u{200A}')
    ||| c == '\u{2028}'
    ||| c == '\u{2029}'
    ||| c == '\u{202F}'
    ||| c == '\u{205F}'
    ||| c == '\u{3000}'
}

/// Executable `is_ws`.
pub fn is_ws_char(c: char) -> (r: bool)
    ensures
        r == is_ws(c),
{
    c == '\t' || c == '\n' || c == '\u{0B}' || c == '\u{0C}' || c == '\r' || c == ' ' || c
        == '\u{85}' || c == '\u{A0}' || c == '\u{1680}' || ('\u{2000}' <= c && c <= '\u{200A}')
        || c == '\u{2028}' || c == '\u{2029}' || c == '\u{202F}' || c == '\u{205F}' || c
        == '\u{3000}'
}

/// `s` with trailing whitespace removed (`str::trim_end`).
pub open spec fn trim_end(s: Seq<char>) -> Seq<char>
    decreases s.len(),
{
    if s.len() > 0 && is_ws(s.last()) {
        trim_end(s.drop_last())
    } else {
        s
    }
}

/// `s` with leading whitespace removed (`str::trim_start`).
pub open spec fn trim_start(s: Seq<char>) -> Seq<char>
    decreases s.len(),
{
    if s.len() > 0 && is_ws(s[0]) {
        trim_start(s.drop_first())
    } else {
        s
    }
}

/// `s` with leading and trailing whitespace removed (`str::trim`).
pub open spec fn trim(s: Seq<char>) -> Seq<char> {
    trim_start(trim_end(s))
}

/// Number of characters that survive `trim_end`.
pub proof fn lemma_trim_end_prefix(s: Seq<char>)
    ensures
        trim_end(s) == s.take(trim_end(s).len() as int),
        trim_end(s).len() <= s.len(),
        trim_end(s).len() == 0 || !is_ws(trim_end(s).last()),
        forall|j: int| trim_end(s).len() <= j < s.len() ==> is_ws(#[trigger] s[j]),
    decreases s.len(),
{
    if s.len() > 0 && is_ws(s.last()) {
        lemma_trim_end_prefix(s.drop_last());
        assert(s.drop_last().take(trim_end(s).len() as int) == s.take(trim_end(s).len() as int));
        assert forall|j: int| trim_end(s).len() <= j < s.len() implies is_ws(#[trigger] s[j]) by {
            if j < s.len() - 1 {
                assert(s[j] == s.drop_last()[j]);
            }
        }
    } else {
        assert(s.take(s.len() as int) == s);
    }
}

/// Characterisation of `trim_end` by its length.
pub proof fn lemma_trim_end_unique(s: Seq<char>, k: int)
    requires
        0 <= k <= s.len(),
        k == 0 || !is_ws(s[k - 1]),
        forall|j: int| k <= j < s.len() ==> is_ws(#[trigger] s[j]),
    ensures
        trim_end(s) == s.take(k),
    decreases s.len(),
{
    if s.len() > k {
        assert(is_ws(s[s.len() - 1]));
        lemma_trim_end_unique(s.drop_last(), k);
        assert(s.drop_last().take(k) == s.take(k));
    } else {
        assert(s.take(k) == s);
        if k > 0 {
            assert(s.last() == s[k - 1]);
        }
    }
}

/// Structure of `trim_start`.
pub proof fn lemma_trim_start_suffix(s: Seq<char>)
    ensures
        trim_start(s) == s.skip(s.len() - trim_start(s).len()),
        trim_start(s).len() <= s.len(),
        trim_start(s).len() == 0 || !is_ws(trim_start(s)[0]),
        forall|j: int| 0 <= j < s.len() - trim_start(s).len() ==> is_ws(#[trigger] s[j]),
    decreases s.len(),
{
    if s.len() > 0 && is_ws(s[0]) {
        lemma_trim_start_suffix(s.drop_first());
        assert(s.drop_first().skip(s.len() - 1 - trim_start(s).len()) == s.skip(
            s.len() - trim_start(s).len(),
        ));
        assert forall|j: int| 0 <= j < s.len() - trim_start(s).len() implies is_ws(
            #[trigger] s[j],
        ) by {
            if j > 0 {
                assert(s[j] == s.drop_first()[j - 1]);
            }
        }
    } else {
        assert(s.skip(0) == s);
    }
}

/// Characterisation of `trim_start` by the number of characters dropped.
pub proof fn lemma_trim_start_unique(s: Seq<char>, k: int)
    requires
        0 <= k <= s.len(),
        k == s.len() || !is_ws(s[k]),
        forall|j: int| 0 <= j < k ==> is_ws(#[trigger] s[j]),
    ensures
        trim_start(s) == s.skip(k),
    decreases s.len(),
{
    if k > 0 {
        assert(is_ws(s[0]));
        lemma_trim_start_unique(s.drop_first(), k - 1);
        assert(s.drop_first().skip(k - 1) == s.skip(k));
    } else {
        assert(s.skip(0) == s);
    }
}

/// Length of `trim_end(s)`, computed.
pub fn trim_end_len(s: &[char]) -> (k: usize)
    ensures
        k <= s@.len(),
        k == trim_end(s@).len(),
        s@.take(k as int) == trim_end(s@),
{
    let mut k = s.len();
    while k > 0 && is_ws_char(s[k - 1])
        invariant
            k <= s@.len(),
            forall|j: int| k <= j < s@.len() ==> is_ws(#[trigger] s@[j]),
        decreases k,
    {
        k -= 1;
    }
    proof {
        lemma_trim_end_unique(s@, k as int);
    }
    k
}

/// Number of leading whitespace characters of `s`.
pub fn trim_start_count(s: &[char]) -> (k: usize)
    ensures
        k <= s@.len(),
        s@.skip(k as int) == trim_start(s@),
{
    let mut k: usize = 0;
    while k < s.len() && is_ws_char(s[k])
        invariant
            k <= s@.len(),
            forall|j: int| 0 <= j < k ==> is_ws(#[trigger] s@[j]),
        decreases s@.len() - k,
    {
        k += 1;
    }
    proof {
        lemma_trim_start_unique(s@, k as int);
    }
    k
}

/// `str::trim_end`, on characters.
pub fn trim_end_chars(s: &[char]) -> (r: Vec<char>)
    ensures
        r@ == trim_end(s@),
{
    let k = trim_end_len(s);
    slice_chars(s, 0, k)
}

/// `str::trim_start`, on characters.
pub fn trim_start_chars(s: &[char]) -> (r: Vec<char>)
    ensures
        r@ == trim_start(s@),
{
    let k = trim_start_count(s);
    slice_chars(s, k, s.len())
}

/// `str::trim`, on characters.
pub fn trim_chars(s: &[char]) -> (r: Vec<char>)
    ensures
        r@ == trim(s@),
{
    let e = trim_end_chars(s);
    trim_start_chars(&e)
}

// ───────────────────────── searching ─────────────────────────

/// `pat` occurs in `s` starting at index `i`.
pub open spec fn occurs_at(s: Seq<char>, pat: Seq<char>, i: int) -> bool {
    0 <= i && i + pat.len() <= s.len() && s.subrange(i, i + pat.len()) == pat
}

/// `s` starts with `pat`.
pub open spec fn starts_with(s: Seq<char>, pat: Seq<char>) -> bool {
    occurs_at(s, pat, 0)
}

/// `s` ends with `pat`.
pub open spec fn ends_with(s: Seq<char>, pat: Seq<char>) -> bool {
    pat.len() <= s.len() && occurs_at(s, pat, s.len() - pat.len())
}

/// `pat` occurs somewhere in `s`.
pub open spec fn contains(s: Seq<char>, pat: Seq<char>) -> bool {
    exists|i: int| occurs_at(s, pat, i)
}

/// Test whether `pat` occurs in `s` at index `i`.
pub fn occurs_at_exec(s: &[char], pat: &[char], i: usize) -> (r: bool)
    ensures
        r == occurs_at(s@, pat@, i as int),
{
    if i > s.len() || pat.len() > s.len() - i {
        return false;
    }
    let mut j: usize = 0;
    while j < pat.len()
        invariant
            i + pat@.len() <= s@.len(),
            i + pat.len() <= s.len(),
            j <= pat@.len(),
            forall|k: int| 0 <= k < j ==> s@[i + k] == pat@[k],
        decreases pat@.len() - j,
    {
        assert(i + j < s@.len());
        if s[i + j] != pat[j] {
            assert(s@.subrange(i as int, i + pat@.len())[j as int] != pat@[j as int]);
            return false;
        }
        j += 1;
    }
    assert(s@.subrange(i as int, i + pat@.len()) =~= pat@);
    true
}

/// Test whether `s` starts with `pat`.
pub fn starts_with_exec(s: &[char], pat: &[char]) -> (r: bool)
    ensures
        r == starts_with(s@, pat@),
{
    occurs_at_exec(s, pat, 0)
}

/// Test whether `s` ends with `pat`.
pub fn ends_with_exec(s: &[char], pat: &[char]) -> (r: bool)
    ensures
        r == ends_with(s@, pat@),
{
    if pat.len() > s.len() {
        false
    } else {
        occurs_at_exec(s, pat, s.len() - pat.len())
    }
}

/// Index of the first occurrence of `pat` in `s` at or after `from`.
pub open spec fn first_occurrence(s: Seq<char>, pat: Seq<char>, from: int, i: int) -> bool {
    &&& from <= i
    &&& occurs_at(s, pat, i)
    &&& forall|j: int| from <= j < i ==> !occurs_at(s, pat, j)
}

/// The first index at or after `i` where `pat` occurs in `s`.
pub open spec fn find_spec(s: Seq<char>, pat: Seq<char>, i: int) -> Option<int>
    decreases s.len() + 1 - i,
{
    if i > s.len() {
        None
    } else if occurs_at(s, pat, i) {
        Some(i)
    } else {
        find_spec(s, pat, i + 1)
    }
}

/// `str::find` from a starting index: the first occurrence of `pat` at or
/// after `from`, if any.
pub fn find_from(s: &[char], pat: &[char], from: usize) -> (r: Option<usize>)
    ensures
        r matches Some(i) ==> first_occurrence(s@, pat@, from as int, i as int),
        r is None ==> forall|j: int| from <= j ==> !occurs_at(s@, pat@, j),
        match r {
            Some(i) => find_spec(s@, pat@, from as int) == Some(i as int),
            None => find_spec(s@, pat@, from as int) is None,
        },
{
    let mut i = from;
    while i <= s.len()
        invariant
            from <= i,
            forall|j: int| from <= j < i ==> !occurs_at(s@, pat@, j),
            find_spec(s@, pat@, from as int) == find_spec(s@, pat@, i as int),
        decreases s@.len() + 1 - i,
    {
        if occurs_at_exec(s, pat, i) {
            return Some(i);
        }
        if i == s.len() {
            assert(find_spec(s@, pat@, i + 1) is None);
            assert forall|j: int| from <= j implies !occurs_at(s@, pat@, j) by {
                if j > s@.len() {
                    assert(!occurs_at(s@, pat@, j));
                }
            }
            return None;
        }
        i += 1;
    }
    None
}

/// Index of the first `c` in `s` at or after `from`.
pub fn find_char(s: &[char], c: char, from: usize) -> (r: Option<usize>)
    ensures
        r matches Some(i) ==> from <= i < s@.len() && s@[i as int] == c && forall|j: int|
            from <= j < i ==> s@[j] != c,
        r is None ==> forall|j: int| from <= j < s@.len() ==> s@[j] != c,
{
    let mut i = from;
    while i < s.len()
        invariant
            from <= i,
            forall|j: int| from <= j < i && j < s@.len() ==> s@[j] != c,
        decreases s@.len() - i,
    {
        if s[i] == c {
            return Some(i);
        }
        i += 1;
    }
    None
}

/// `c` occurs in `s`.
pub fn has_char(s: &[char], c: char) -> (r: bool)
    ensures
        r == s@.contains(c),
{
    match find_char(s, c, 0) {
        Some(i) => {
            assert(s@[i as int] == c);
            true
        },
        None => false,
    }
}

// ───────────────────────── lines ─────────────────────────

/// Index of the first `'\n'` in `s`, or `s.len()` if there is none.
pub open spec fn newline_index(s: Seq<char>) -> int
    decreases s.len(),
{
    if s.len() == 0 {
        0
    } else if s[0] == '\n' {
        0
    } else {
        1 + newline_index(s.drop_first())
    }
}

/// `l` without one trailing `'\r'`.
pub open spec fn strip_cr(l: Seq<char>) -> Seq<char> {
    if l.len() > 0 && l.last() == '\r' {
        l.drop_last()
    } else {
        l
    }
}

/// `str::lines`: split at `"\n"` (a `"\r"` just before it is dropped too);
/// a final line ending does not start an empty line.
pub open spec fn lines(s: Seq<char>) -> Seq<Seq<char>>
    decreases s.len(),
{
    if s.len() == 0 {
        Seq::empty()
    } else {
        let i = newline_index(s);
        proof {
            lemma_newline_index(s);
        }
        if i >= s.len() {
            seq![s]
        } else {
            seq![strip_cr(s.take(i))] + lines(s.skip(i + 1))
        }
    }
}

pub proof fn lemma_newline_index(s: Seq<char>)
    ensures
        0 <= newline_index(s) <= s.len(),
        newline_index(s) < s.len() ==> s[newline_index(s)] == '\n',
        forall|j: int| 0 <= j < newline_index(s) ==> s[j] != '\n',
    decreases s.len(),
{
    if s.len() > 0 && s[0] != '\n' {
        lemma_newline_index(s.drop_first());
        assert forall|j: int| 0 <= j < newline_index(s) implies s[j] != '\n' by {
            if j > 0 {
                assert(s[j] == s.drop_first()[j - 1]);
            }
        }
    }
}

pub proof fn lemma_newline_index_unique(s: Seq<char>, i: int)
    requires
        0 <= i <= s.len(),
        i < s.len() ==> s[i] == '\n',
        forall|j: int| 0 <= j < i ==> s[j] != '\n',
    ensures
        newline_index(s) == i,
    decreases s.len(),
{
    if s.len() > 0 && s[0] != '\n' {
        assert forall|j: int| 0 <= j < i - 1 implies s.drop_first()[j] != '\n' by {
            assert(s[j + 1] != '\n');
        }
        lemma_newline_index_unique(s.drop_first(), i - 1);
    }
}

/// Split `s` into its lines (`str::lines`).
pub fn lines_of(s: &[char]) -> (r: Vec<Vec<char>>)
    ensures
        r@.len() == lines(s@).len(),
        forall|k: int| 0 <= k < r@.len() ==> (#[trigger] r@[k])@ == lines(s@)[k],
{
    let mut r: Vec<Vec<char>> = Vec::new();
    let mut pos: usize = 0;
    proof {
        assert(s@.skip(0) == s@);
        assert(r@.map_values(|l: Vec<char>| l@) == Seq::<Seq<char>>::empty());
        assert(Seq::<Seq<char>>::empty() + lines(s@) == lines(s@));
    }
    while pos < s.len()
        invariant
            pos <= s@.len(),
            lines(s@) == r@.map_values(|l: Vec<char>| l@) + lines(s@.skip(pos as int)),
        decreases s@.len() - pos,
    {
        let ghost rest = s@.skip(pos as int);
        match find_char(s, '\n', pos) {
            Some(i) => {
                proof {
                    lemma_newline_index_unique(rest, i - pos);
                    assert(rest.take(i - pos) == s@.subrange(pos as int, i as int));
                    assert(rest.skip(i - pos + 1) == s@.skip(i + 1));
                }
                let mut line = slice_chars(s, pos, i);
                if line.len() > 0 && line[line.len() - 1] == '\r' {
                    line.pop();
                }
                let ghost before = r@;
                r.push(line);
                proof {
                    assert(r@.map_values(|l: Vec<char>| l@) == before.map_values(|l: Vec<char>| l@).push(
                        strip_cr(rest.take(i - pos)),
                    ));
                }
                pos = i + 1;
            },
            None => {
                proof {
                    lemma_newline_index_unique(rest, rest.len() as int);
                }
                let line = slice_chars(s, pos, s.len());
                let ghost before = r@;
                r.push(line);
                proof {
                    assert(r@.map_values(|l: Vec<char>| l@) == before.map_values(|l: Vec<char>| l@).push(
                        rest,
                    ));
                    assert(s@.skip(s@.len() as int) == Seq::<char>::empty());
                }
                pos = s.len();
            },
        }
    }
    proof {
        assert(s@.skip(pos as int) == Seq::<char>::empty());
        assert(lines(s@) == r@.map_values(|l: Vec<char>| l@));
    }
    r
}

// ───────────────────────── Unicode case and classes ─────────────────────────

/// What `str::to_lowercase` returns for a string.
pub uninterp spec fn lowercase(s: Seq<char>) -> Seq<char>;

/// `str::to_lowercase`: the Unicode lowercase mapping of every character
/// (with the context-sensitive final-sigma rule). The contract names the
/// result and says nothing more about it.
#[verifier::external_body]
pub(crate) fn to_lowercase(s: &str) -> (r: String)
    ensures
        r@ == lowercase(s@),
{
    s.to_lowercase()
}

/// What `char::is_alphanumeric` returns for a character.
pub uninterp spec fn alphanumeric(c: char) -> bool;

/// `char::is_alphanumeric`: the Unicode `Alphabetic` property or a numeric
/// general category. The contract names the result.
#[verifier::external_body]
pub(crate) fn is_alphanumeric(c: char) -> (r: bool)
    ensures
        r == alphanumeric(c),
{
    c.is_alphanumeric()
}

/// What the canonical composition (NFC) of a string is.
pub uninterp spec fn nfc(s: Seq<char>) -> Seq<char>;

/// `UnicodeNormalization::nfc` of the `unicode-normalization` crate,
/// collected into a `String`: the canonical composition of `s`. The
/// contract names the result.
#[verifier::external_body]
pub(crate) fn to_nfc(s: &str) -> (r: String)
    ensures
        r@ == nfc(s@),
{
    s.nfc().collect()
}

} // verus!

verus! {

// ───────────────────────── owned strings ─────────────────────────

/// The views of a sequence of strings.
pub open spec fn views(v: Seq<String>) -> Seq<Seq<char>> {
    v.map_values(|s: String| s@)
}

/// The view of an optional string.
pub open spec fn opt_view(o: Option<String>) -> Option<Seq<char>> {
    match o {
        Some(s) => Some(s@),
        None => None,
    }
}

/// An owned copy of `s`.
pub fn owned(s: &str) -> (r: String)
    ensures
        r@ == s@,
{
    s.to_owned()
}

/// A copy of an optional string.
pub fn clone_opt(o: &Option<String>) -> (r: Option<String>)
    ensures
        opt_view(r) == opt_view(*o),
{
    match o {
        Some(s) => Some(s.clone()),
        None => None,
    }
}

/// A copy of a vector of strings.
pub fn clone_strings(v: &Vec<String>) -> (r: Vec<String>)
    ensures
        views(r@) == views(v@),
{
    let mut r: Vec<String> = Vec::new();
    let mut i: usize = 0;
    while i < v.len()
        invariant
            i <= v@.len(),
            views(r@) == views(v@).take(i as int),
        decreases v@.len() - i,
    {
        let ghost before = r@;
        let c = v[i].clone();
        r.push(c);
        i += 1;
        assert(views(r@) =~= views(before).push(c@));
        assert(views(v@).take(i as int) =~= views(v@).take((i - 1) as int).push(v@[i - 1]@));
    }
    assert(views(v@).take(i as int) == views(v@));
    r
}

/// A copy of an optional vector of strings.
pub fn clone_opt_strings(o: &Option<Vec<String>>) -> (r: Option<Vec<String>>)
    ensures
        r is Some == o is Some,
        r is Some ==> views(r->0@) == views(o->0@),
{
    match o {
        Some(v) => Some(clone_strings(v)),
        None => None,
    }
}

/// Owned strings built from a slice of string slices.
pub fn strings_of(v: &[&str]) -> (r: Vec<String>)
    ensures
        views(r@) == v@.map_values(|s: &str| s@),
{
    let mut r: Vec<String> = Vec::new();
    let mut i: usize = 0;
    while i < v.len()
        invariant
            i <= v@.len(),
            views(r@) == v@.map_values(|s: &str| s@).take(i as int),
        decreases v@.len() - i,
    {
        let ghost before = r@;
        let c = owned(v[i]);
        r.push(c);
        i += 1;
        assert(views(r@) =~= views(before).push(c@));
        assert(v@.map_values(|s: &str| s@).take(i as int) =~= v@.map_values(|s: &str| s@).take(
            (i - 1) as int,
        ).push(v@[i - 1]@));
    }
    assert(v@.map_values(|s: &str| s@).take(i as int) == v@.map_values(|s: &str| s@));
    r
}

/// String equality by characters.
pub fn str_eq(a: &str, b: &str) -> (r: bool)
    ensures
        r == (a@ == b@),
{
    let x = chars_of(a);
    let y = chars_of(b);
    eq_chars(x.as_slice(), y.as_slice())
}

// ───────────────────────── splitting and joining ─────────────────────────

/// Index of the first `c` in `s`, or `s.len()` if there is none.
pub open spec fn index_of(s: Seq<char>, c: char) -> int
    decreases s.len(),
{
    if s.len() == 0 {
        0
    } else if s[0] == c {
        0
    } else {
        1 + index_of(s.drop_first(), c)
    }
}

pub proof fn lemma_index_of(s: Seq<char>, c: char)
    ensures
        0 <= index_of(s, c) <= s.len(),
        index_of(s, c) < s.len() ==> s[index_of(s, c)] == c,
        forall|j: int| 0 <= j < index_of(s, c) ==> s[j] != c,
    decreases s.len(),
{
    if s.len() > 0 && s[0] != c {
        lemma_index_of(s.drop_first(), c);
        assert forall|j: int| 0 <= j < index_of(s, c) implies s[j] != c by {
            if j > 0 {
                assert(s[j] == s.drop_first()[j - 1]);
            }
        }
    }
}

pub proof fn lemma_index_of_unique(s: Seq<char>, c: char, i: int)
    requires
        0 <= i <= s.len(),
        i < s.len() ==> s[i] == c,
        forall|j: int| 0 <= j < i ==> s[j] != c,
    ensures
        index_of(s, c) == i,
    decreases s.len(),
{
    if s.len() > 0 && s[0] != c {
        assert forall|j: int| 0 <= j < i - 1 implies s.drop_first()[j] != c by {
            assert(s[j + 1] != c);
        }
        lemma_index_of_unique(s.drop_first(), c, i - 1);
    }
}

/// The maximal non-empty runs of characters other than `sep` in `s`, in
/// order (`s.split(sep).filter(|w| !w.is_empty())`).
pub open spec fn words(s: Seq<char>, sep: char) -> Seq<Seq<char>>
    decreases s.len(),
{
    if s.len() == 0 {
        Seq::empty()
    } else if s[0] == sep {
        words(s.drop_first(), sep)
    } else {
        let i = index_of(s, sep);
        proof {
            lemma_index_of(s, sep);
        }
        seq![s.take(i)] + words(s.skip(i), sep)
    }
}

/// `parts` joined with `sep` between consecutive parts (`[T]::join`).
pub open spec fn join(parts: Seq<Seq<char>>, sep: Seq<char>) -> Seq<char>
    decreases parts.len(),
{
    if parts.len() == 0 {
        Seq::empty()
    } else if parts.len() == 1 {
        parts[0]
    } else {
        join(parts.drop_last(), sep) + sep + parts.last()
    }
}

/// Split `s` into its `words` separated by `sep`.
pub fn words_of(s: &[char], sep: char) -> (r: Vec<Vec<char>>)
    ensures
        r@.map_values(|w: Vec<char>| w@) == words(s@, sep),
{
    let mut r: Vec<Vec<char>> = Vec::new();
    let mut pos: usize = 0;
    proof {
        assert(s@.skip(0) == s@);
        assert(r@.map_values(|w: Vec<char>| w@) + words(s@, sep) == words(s@, sep));
    }
    while pos < s.len()
        invariant
            pos <= s@.len(),
            words(s@, sep) == r@.map_values(|w: Vec<char>| w@) + words(s@.skip(pos as int), sep),
        decreases s@.len() - pos,
    {
        let ghost rest = s@.skip(pos as int);
        if s[pos] == sep {
            proof {
                assert(rest.drop_first() == s@.skip(pos + 1));
            }
            pos += 1;
        } else {
            let end = match find_char(s, sep, pos) {
                Some(i) => i,
                None => s.len(),
            };
            proof {
                lemma_index_of_unique(rest, sep, end - pos);
                assert(rest.take(end - pos) == s@.subrange(pos as int, end as int));
                assert(rest.skip(end - pos) == s@.skip(end as int));
            }
            let w = slice_chars(s, pos, end);
            let ghost before = r@;
            r.push(w);
            proof {
                assert(r@.map_values(|w: Vec<char>| w@) == before.map_values(|w: Vec<char>| w@).push(
                    rest.take(end - pos),
                ));
            }
            pos = end;
        }
    }
    proof {
        assert(s@.skip(pos as int) == Seq::<char>::empty());
        assert(words(s@, sep) == r@.map_values(|w: Vec<char>| w@));
    }
    r
}

/// Join the character vectors of `parts` with `sep`.
pub fn join_chars(parts: &Vec<Vec<char>>, sep: &[char]) -> (r: Vec<char>)
    ensures
        r@ == join(parts@.map_values(|w: Vec<char>| w@), sep@),
{
    let ghost ps = parts@.map_values(|w: Vec<char>| w@);
    let mut r: Vec<char> = Vec::new();
    let mut i: usize = 0;
    while i < parts.len()
        invariant
            i <= parts@.len(),
            ps == parts@.map_values(|w: Vec<char>| w@),
            r@ == join(ps.take(i as int), sep@),
        decreases parts@.len() - i,
    {
        if i > 0 {
            push_all(&mut r, sep);
        }
        push_all(&mut r, parts[i].as_slice());
        i += 1;
        assert(ps.take(i as int).drop_last() == ps.take((i - 1) as int));
    }
    assert(ps.take(i as int) == ps);
    r
}

/// Join strings with a separator.
pub fn join_strings(parts: &Vec<String>, sep: &str) -> (r: String)
    ensures
        r@ == join(views(parts@), sep@),
{
    let mut cs: Vec<Vec<char>> = Vec::new();
    let mut i: usize = 0;
    while i < parts.len()
        invariant
            i <= parts@.len(),
            cs@.map_values(|w: Vec<char>| w@) == views(parts@).take(i as int),
        decreases parts@.len() - i,
    {
        let ghost before = cs@;
        let c = chars_of(parts[i].as_str());
        cs.push(c);
        i += 1;
        assert(cs@.map_values(|w: Vec<char>| w@) =~= before.map_values(|w: Vec<char>| w@).push(c@));
        assert(views(parts@).take(i as int) =~= views(parts@).take((i - 1) as int).push(
            parts@[i - 1]@,
        ));
    }
    assert(views(parts@).take(i as int) == views(parts@));
    let sep_c = chars_of(sep);
    let r = join_chars(&cs, sep_c.as_slice());
    string_of(r.as_slice())
}

// ───────────────────────── UTF-8 lengths ─────────────────────────

/// Bytes in the UTF-8 encoding of `c` (`char::len_utf8`).
pub open spec fn utf8_len(c: char) -> nat {
    if (c as int) < 0x80 {
        1
    } else if (c as int) < 0x800 {
        2
    } else if (c as int) < 0x10000 {
        3
    } else {
        4
    }
}

/// Bytes in the UTF-8 encoding of `s`.
pub open spec fn byte_len(s: Seq<char>) -> nat
    decreases s.len(),
{
    if s.len() == 0 {
        0
    } else {
        byte_len(s.drop_last()) + utf8_len(s.last())
    }
}

pub fn char_bytes(c: char) -> (r: usize)
    ensures
        r == utf8_len(c),
{
    if (c as u32) < 0x80 {
        1
    } else if (c as u32) < 0x800 {
        2
    } else if (c as u32) < 0x10000 {
        3
    } else {
        4
    }
}

pub proof fn lemma_byte_len_push(s: Seq<char>, c: char)
    ensures
        byte_len(s.push(c)) == byte_len(s) + utf8_len(c),
{
    assert(s.push(c).drop_last() == s);
}

// ───────────────────────── numbers ─────────────────────────

/// The ASCII digit for `d` (0-9).
pub open spec fn digit(d: nat) -> char {
    ((d + 48) as u32) as char
}

/// The decimal representation of `n` (`Display` for unsigned integers).
pub open spec fn decimal(n: nat) -> Seq<char>
    decreases n,
{
    if n < 10 {
        seq![digit(n)]
    } else {
        decimal(n / 10).push(digit(n % 10))
    }
}

/// The decimal representation of `n` (`Display` for signed integers).
pub open spec fn signed_decimal(n: int) -> Seq<char> {
    if n < 0 {
        seq!['-'] + decimal((-n) as nat)
    } else {
        decimal(n as nat)
    }
}

fn digit_char(d: u64) -> (r: char)
    requires
        d < 10,
    ensures
        r == digit(d as nat),
{
    if d == 0 {
        '0'
    } else if d == 1 {
        '1'
    } else if d == 2 {
        '2'
    } else if d == 3 {
        '3'
    } else if d == 4 {
        '4'
    } else if d == 5 {
        '5'
    } else if d == 6 {
        '6'
    } else if d == 7 {
        '7'
    } else if d == 8 {
        '8'
    } else {
        '9'
    }
}

/// The decimal digits of `n`.
pub fn decimal_chars(n: u64) -> (r: Vec<char>)
    ensures
        r@ == decimal(n as nat),
    decreases n,
{
    if n < 10 {
        let mut r: Vec<char> = Vec::new();
        r.push(digit_char(n));
        r
    } else {
        let mut r = decimal_chars(n / 10);
        r.push(digit_char(n % 10));
        r
    }
}

/// The decimal representation of a signed number.
pub fn signed_decimal_chars(n: i64) -> (r: Vec<char>)
    ensures
        r@ == signed_decimal(n as int),
{
    if n < 0 {
        let m: u64 = if n == i64::MIN {
            9223372036854775808u64
        } else {
            (-n) as u64
        };
        let d = decimal_chars(m);
        let mut r: Vec<char> = Vec::new();
        r.push('-');
        push_all(&mut r, d.as_slice());
        proof {
            assert(r@ =~= seq!['-'] + decimal((-n) as nat));
        }
        r
    } else {
        decimal_chars(n as u64)
    }
}

} // verus!
