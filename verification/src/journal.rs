//! Journal-first quick capture: one page per day under `wiki/_journal/`,
//! one timestamped line per capture, and the captures left untriaged too
//! long.

use crate::error::WikiError;
use crate::path::{join_path, path_join};
use crate::text::{
    chars_of, decimal, decimal_chars, ends_with, owned, push_all, string_of, trim, trim_chars,
    };
use vstd::prelude::*;

verus! {

/// Directory under `wiki/` that holds the journal pages.
pub const JOURNAL_DIR: &'static str = "_journal";

/// Days after which an untriaged capture is stale.
pub const DEFAULT_STALE_AFTER_DAYS: u32 = 7;

/// A calendar date.
#[derive(Debug, Clone, Copy)]
pub struct JournalDate {
    pub year: i32,
    pub month: u8,
    pub day: u8,
}

/// A wall-clock time of day.
#[derive(Debug, Clone, Copy)]
pub struct ClockTime {
    pub hour: u8,
    pub minute: u8,
}

/// The result of appending a capture.
#[derive(Debug)]
pub struct CaptureAppend {
    /// The journal page written.
    pub path: String,
    /// The page did not exist before this capture.
    pub created: bool,
    /// The capture line appended.
    pub line: String,
    /// The page's path relative to the wiki root, for messages.
    pub display_path: String,
}

/// A journal page whose last commit is older than the threshold.
#[derive(Debug, Clone)]
pub struct StaleJournalFinding {
    /// The path relative to `wiki/`, starting with `_journal/`.
    pub path: String,
    pub age_days: i64,
}

// ───────────────────────── formatting ─────────────────────────

/// The decimal digits of `n`, left-padded with zeros to at least `w`.
pub open spec fn padded(n: nat, w: nat) -> Seq<char> {
    let d = decimal(n);
    if d.len() < w {
        Seq::new((w - d.len()) as nat, |i: int| '0') + d
    } else {
        d
    }
}

fn padded_chars(n: u64, w: usize) -> (r: Vec<char>)
    ensures
        r@ == padded(n as nat, w as nat),
{
    let d = decimal_chars(n);
    let mut r: Vec<char> = Vec::new();
    if d.len() < w {
        let k = w - d.len();
        let mut i: usize = 0;
        while i < k
            invariant
                i <= k,
                r@ == Seq::new(i as nat, |j: int| '0'),
            decreases k - i,
        {
            r.push('0');
            i += 1;
            proof {
                assert(r@ =~= Seq::new(i as nat, |j: int| '0'));
            }
        }
    }
    push_all(&mut r, d.as_slice());
    proof {
        if d@.len() >= w {
            assert(r@ =~= d@);
        }
    }
    r
}

/// `YYYY-MM-DD`, each part zero-padded; a year before 1 carries a `-`.
pub open spec fn date_iso(d: JournalDate) -> Seq<char> {
    (if d.year < 0 {
        "-"@
    } else {
        Seq::empty()
    }) + padded(
        if d.year < 0 {
            (-d.year) as nat
        } else {
            d.year as nat
        },
        4,
    ) + "-"@ + padded(d.month as nat, 2) + "-"@ + padded(d.day as nat, 2)
}

fn date_chars(d: JournalDate) -> (r: Vec<char>)
    ensures
        r@ == date_iso(d),
{
    proof {
        reveal_strlit("-");
    }
    let mut r: Vec<char> = Vec::new();
    let y: u64 = if d.year < 0 {
        r.push('-');
        (-(d.year as i64)) as u64
    } else {
        d.year as u64
    };
    push_all(&mut r, padded_chars(y, 4).as_slice());
    r.push('-');
    push_all(&mut r, padded_chars(d.month as u64, 2).as_slice());
    r.push('-');
    push_all(&mut r, padded_chars(d.day as u64, 2).as_slice());
    proof {
        let sign = if d.year < 0 {
            "-"@
        } else {
            Seq::<char>::empty()
        };
        assert(r@ =~= sign + padded(y as nat, 4) + "-"@ + padded(d.month as nat, 2) + "-"@
            + padded(d.day as nat, 2));
    }
    r
}

/// The date as `YYYY-MM-DD`.
pub fn format_date_iso(date: JournalDate) -> (r: String)
    ensures
        r@ == date_iso(date),
{
    string_of(date_chars(date).as_slice())
}

/// `HH:MM`, zero-padded.
pub open spec fn time_hm(t: ClockTime) -> Seq<char> {
    padded(t.hour as nat, 2) + ":"@ + padded(t.minute as nat, 2)
}

fn time_chars(t: ClockTime) -> (r: Vec<char>)
    ensures
        r@ == time_hm(t),
{
    proof {
        reveal_strlit(":");
    }
    let mut r = padded_chars(t.hour as u64, 2);
    r.push(':');
    push_all(&mut r, padded_chars(t.minute as u64, 2).as_slice());
    proof {
        assert(r@ =~= padded(t.hour as nat, 2) + ":"@ + padded(t.minute as nat, 2));
    }
    r
}

/// The time as `HH:MM`.
pub fn format_time_hm(time: ClockTime) -> (r: String)
    ensures
        r@ == time_hm(time),
{
    string_of(time_chars(time).as_slice())
}

/// The file name of a day's journal page: `YYYY-MM-DD.md`.
pub open spec fn journal_file(d: JournalDate) -> Seq<char> {
    date_iso(d) + ".md"@
}

/// `<root>/wiki/_journal/YYYY-MM-DD.md`.
pub open spec fn journal_path(root: Seq<char>, d: JournalDate) -> Seq<char> {
    path_join(path_join(path_join(root, "wiki"@), "_journal"@), journal_file(d))
}

fn journal_file_name(date: JournalDate) -> (r: String)
    ensures
        r@ == journal_file(date),
{
    let mut f = date_chars(date);
    push_all(&mut f, chars_of(".md").as_slice());
    string_of(f.as_slice())
}

/// Where the journal page of `date` lives under `wiki_root`.
pub fn journal_path_for_date(wiki_root: &str, date: JournalDate) -> (r: String)
    ensures
        r@ == journal_path(wiki_root@, date),
{
    let w = join_path(wiki_root, "wiki");
    let j = join_path(w.as_str(), JOURNAL_DIR);
    proof {
        reveal_strlit("_journal");
    }
    join_path(j.as_str(), journal_file_name(date).as_str())
}

/// A tag without its leading `#` signs.
pub open spec fn bare_tag(t: Seq<char>) -> Seq<char>
    decreases t.len(),
{
    if t.len() > 0 && t[0] == '#' {
        bare_tag(t.drop_first())
    } else {
        t
    }
}

/// The rendered tags: `` `#tag` `` for each, each preceded by a space.
pub open spec fn tag_suffix(tags: Seq<Seq<char>>) -> Seq<char>
    decreases tags.len(),
{
    if tags.len() == 0 {
        Seq::empty()
    } else {
        tag_suffix(tags.drop_last()) + " `#"@ + bare_tag(tags.last()) + "`"@
    }
}

/// A capture line: `- **HH:MM** <content>`, then the tags, then
/// ` ([source](<url>))` when a source is given. The content is trimmed.
pub open spec fn capture_line(t: ClockTime, content: Seq<char>, tags: Seq<Seq<char>>, source: Option<Seq<char>>) -> Seq<char> {
    "- **"@ + time_hm(t) + "** "@ + trim(content) + tag_suffix(tags) + match source {
        Some(s) => " ([source]("@ + s + "))"@,
        None => Seq::empty(),
    }
}

fn bare_tag_chars(t: &[char]) -> (r: Vec<char>)
    ensures
        r@ == bare_tag(t@),
{
    let mut i: usize = 0;
    proof {
        assert(t@.skip(0) == t@);
    }
    while i < t.len() && t[i] == '#'
        invariant
            i <= t@.len(),
            bare_tag(t@) == bare_tag(t@.skip(i as int)),
        decreases t@.len() - i,
    {
        proof {
            assert(t@.skip(i as int).drop_first() == t@.skip(i + 1));
        }
        i += 1;
    }
    proof {
        assert(t@.subrange(i as int, t@.len() as int) == t@.skip(i as int));
    }
    crate::text::slice_chars(t, i, t.len())
}

/// Render one capture line.
pub fn format_capture_line(time: ClockTime, content: &str, tags: &[String], source: Option<&str>) -> (r:
    String)
    ensures
        r@ == capture_line(
            time,
            content@,
            tags@.map_values(|s: String| s@),
            match source {
                Some(s) => Some(s@),
                None => None,
            },
        ),
{
    proof {
        reveal_strlit("- **");
        reveal_strlit("** ");
        reveal_strlit(" `#");
        reveal_strlit("`");
    }
    let mut r = chars_of("- **");
    push_all(&mut r, time_chars(time).as_slice());
    push_all(&mut r, chars_of("** ").as_slice());
    push_all(&mut r, trim_chars(chars_of(content).as_slice()).as_slice());
    let ghost head = r@;
    let ghost tv = tags@.map_values(|s: String| s@);
    let mut i: usize = 0;
    while i < tags.len()
        invariant
            i <= tags@.len(),
            tv == tags@.map_values(|s: String| s@),
            r@ == head + tag_suffix(tv.take(i as int)),
        decreases tags@.len() - i,
    {
        proof {
            assert(tv.take(i + 1).drop_last() == tv.take(i as int));
            assert(tv.take(i + 1).last() == tags@[i as int]@);
        }
        push_all(&mut r, chars_of(" `#").as_slice());
        push_all(&mut r, bare_tag_chars(chars_of(tags[i].as_str()).as_slice()).as_slice());
        push_all(&mut r, chars_of("`").as_slice());
        i += 1;
        proof {
            assert(r@ =~= head + tag_suffix(tv.take(i as int)));
        }
    }
    proof {
        assert(tv.take(i as int) == tv);
    }
    let ghost mid = r@;
    match source {
        Some(s) => {
            push_all(&mut r, chars_of(" ([source](").as_slice());
            push_all(&mut r, chars_of(s).as_slice());
            push_all(&mut r, chars_of("))").as_slice());
            proof {
                assert(r@ =~= mid + (" ([source]("@ + s@ + "))"@));
            }
        },
        None => {
            proof {
                assert(r@ =~= mid + Seq::<char>::empty());
            }
        },
    }
    string_of(r.as_slice())
}

// ───────────────────────── journal pages ─────────────────────────

/// The text a new journal page starts with: frontmatter with the date as
/// title, the `journal` tag and the creation date, then a `## Captures`
/// heading.
pub open spec fn journal_header(d: JournalDate) -> Seq<char> {
    "---\ntitle: \""@ + date_iso(d) + "\"\ntags: [journal]\ncreated: "@ + date_iso(d)
        + "\n---\n\n## Captures\n\n"@
}

/// The journal page after a capture: a new page is the header and the
/// line; an existing one gets the line appended on a line of its own.
pub open spec fn page_after_capture(existing: Option<Seq<char>>, d: JournalDate, line: Seq<char>) -> Seq<char> {
    match existing {
        None => journal_header(d) + line + "\n"@,
        Some(t) => t + (if t.len() == 0 || ends_with(t, "\n"@) {
            Seq::empty()
        } else {
            "\n"@
        }) + line + "\n"@,
    }
}

/// The journal page's new text after appending `line`, given its current
/// text (`None` when the page does not exist yet).
pub fn journal_text_after(existing: Option<&str>, date: JournalDate, line: &str) -> (r: String)
    ensures
        r@ == page_after_capture(
            match existing {
                Some(t) => Some(t@),
                None => None,
            },
            date,
            line@,
        ),
{
    proof {
        reveal_strlit("---\ntitle: \"");
        reveal_strlit("\"\ntags: [journal]\ncreated: ");
        reveal_strlit("\n---\n\n## Captures\n\n");
        reveal_strlit("\n");
    }
    match existing {
        None => {
            let mut r = chars_of("---\ntitle: \"");
            push_all(&mut r, date_chars(date).as_slice());
            push_all(&mut r, chars_of("\"\ntags: [journal]\ncreated: ").as_slice());
            push_all(&mut r, date_chars(date).as_slice());
            push_all(&mut r, chars_of("\n---\n\n## Captures\n\n").as_slice());
            push_all(&mut r, chars_of(line).as_slice());
            r.push('\n');
            proof {
                assert(r@ =~= journal_header(date) + line@ + "\n"@);
            }
            string_of(r.as_slice())
        },
        Some(t) => {
            let mut r = chars_of(t);
            let ghost base = r@;
            let ends_nl = r.len() == 0 || r[r.len() - 1] == '\n';
            proof {
                if r@.len() > 0 {
                    let last = t@.subrange(t@.len() - 1, t@.len() as int);
                    assert(last[0] == t@[t@.len() - 1]);
                    assert("\n"@.len() == 1 && "\n"@[0] == '\n');
                    if t@[t@.len() - 1] == '\n' {
                        assert(last =~= "\n"@);
                    }
                    assert(ends_with(t@, "\n"@) == (t@[t@.len() - 1] == '\n'));
                }
            }
            if !ends_nl {
                r.push('\n');
            }
            let ghost sep = r@.skip(base.len() as int);
            push_all(&mut r, chars_of(line).as_slice());
            r.push('\n');
            proof {
                let s = if t@.len() == 0 || ends_with(t@, "\n"@) {
                    Seq::<char>::empty()
                } else {
                    "\n"@
                };
                assert(r@ =~= t@ + s + line@ + "\n"@);
            }
            string_of(r.as_slice())
        },
    }
}

/// `content` is nothing but whitespace.
pub fn capture_is_empty(content: &str) -> (r: bool)
    ensures
        r == (trim(content@).len() == 0),
{
    trim_chars(chars_of(content).as_slice()).len() == 0
}

/// The checks and text of a capture: empty content is refused; otherwise
/// the rendered line and the page's relative display path.
pub fn plan_capture(date: JournalDate, time: ClockTime, content: &str, tags: &[String], source: Option<&str>) -> (r:
    Result<(String, String), WikiError>)
    ensures
        trim(content@).len() == 0 <==> r is Err,
        r matches Err(e) ==> (e matches WikiError::Internal(m) && m@
            == "capture content must not be empty"@),
        r matches Ok((line, display)) ==> line@ == capture_line(
            time,
            content@,
            tags@.map_values(|s: String| s@),
            match source {
                Some(s) => Some(s@),
                None => None,
            },
        ) && display@ == "wiki/_journal/"@ + journal_file(date),
{
    if capture_is_empty(content) {
        return Err(WikiError::Internal(owned("capture content must not be empty")));
    }
    let line = format_capture_line(time, content, tags, source);
    let mut d = chars_of("wiki/_journal/");
    push_all(&mut d, chars_of(journal_file_name(date).as_str()).as_slice());
    Ok((line, string_of(d.as_slice())))
}

// ───────────────────────── staleness ─────────────────────────

/// The stale ones among journal files (name, age in days): those whose
/// age is known and above the threshold.
pub open spec fn stale_entries(files: Seq<(String, Option<i64>)>, threshold: u32) -> Seq<(String, Option<i64>)> {
    files.filter(|e: (String, Option<i64>)| is_stale(e, threshold))
}

/// A journal file's age is known and above the threshold.
pub open spec fn is_stale(e: (String, Option<i64>), threshold: u32) -> bool {
    e.1 matches Some(a) && a > threshold
}

/// `f` reports the journal file `e`.
pub open spec fn reports(f: StaleJournalFinding, e: (String, Option<i64>)) -> bool {
    f.path@ == "_journal/"@ + e.0@ && Some(f.age_days) == e.1
}

/// The journal pages left untriaged longer than `threshold_days`, from the
/// `.md` files of `wiki/_journal/` with the age of their last commit. Each
/// finding's path is `_journal/<file>`.
pub fn find_stale_captures(files: &Vec<(String, Option<i64>)>, threshold_days: u32) -> (r: Vec<
    StaleJournalFinding,
>)
    ensures
        r@.len() == stale_entries(files@, threshold_days).len(),
        forall|i: int|
            0 <= i < r@.len() ==> reports(#[trigger] r@[i], stale_entries(files@, threshold_days)[i]),
{
    let ghost pred = |e: (String, Option<i64>)| is_stale(e, threshold_days);
    let mut r: Vec<StaleJournalFinding> = Vec::new();
    let mut i: usize = 0;
    while i < files.len()
        invariant
            i <= files@.len(),
            pred == (|e: (String, Option<i64>)| is_stale(e, threshold_days)),
            r@.len() == files@.take(i as int).filter(pred).len(),
            forall|k: int|
                0 <= k < r@.len() ==> reports(#[trigger] r@[k], files@.take(i as int).filter(pred)[k]),
        decreases files@.len() - i,
    {
        let ghost old_f = files@.take(i as int).filter(pred);
        proof {
            reveal_with_fuel(Seq::filter, 1);
            assert(files@.take(i + 1).drop_last() == files@.take(i as int));
            assert(files@.take(i + 1).last() == files@[i as int]);
        }
        let ghost old_r = r@;
        match files[i].1 {
            Some(a) => {
                if a > threshold_days as i64 {
                    let mut p = chars_of("_journal/");
                    push_all(&mut p, chars_of(files[i].0.as_str()).as_slice());
                    r.push(StaleJournalFinding { path: string_of(p.as_slice()), age_days: a });
                    proof {
                        assert(pred(files@[i as int]));
                        assert(files@.take(i + 1).filter(pred) == old_f.push(files@[i as int]));
                        assert forall|k: int| 0 <= k < r@.len() implies reports(
                            #[trigger] r@[k],
                            files@.take(i + 1).filter(pred)[k],
                        ) by {
                            if k < old_r.len() {
                                assert(r@[k] == old_r[k]);
                            }
                        }
                    }
                } else {
                    proof {
                        assert(!pred(files@[i as int]));
                        assert(files@.take(i + 1).filter(pred) == old_f);
                    }
                }
            },
            None => {
                proof {
                    assert(!pred(files@[i as int]));
                    assert(files@.take(i + 1).filter(pred) == old_f);
                }
            },
        }
        i += 1;
    }
    proof {
        assert(files@.take(i as int) == files@);
        assert(pred =~= (|e: (String, Option<i64>)| is_stale(e, threshold_days)));
        assert(stale_entries(files@, threshold_days) == files@.filter(pred));
    }
    r
}

} // verus!
