//! Freshness of pages and the auto-commit policy.
//!
//! Running `git` is the caller's business; this module decides what to
//! run, composes commit messages and warnings, and interprets results.

use crate::error::WikiError;
use crate::path::{path_strip_prefix, strip_prefix};
use crate::text::{
    chars_of, decimal, decimal_chars, ends_with, ends_with_exec, eq_chars, find_char, index_of,
    join, lines, lines_of, owned, push_all, slice_chars, starts_with, starts_with_exec,
    string_of, trim, trim_chars, views, byte_len, char_bytes, lemma_byte_len_push, contains,
    occurs_at,
};
use vstd::prelude::*;

verus! {

// ───────────────────────── freshness ─────────────────────────

/// Freshness level of a wiki page.
#[derive(Debug, Clone, Copy, PartialEq, Eq)]
pub enum FreshnessLevel {
    Fresh,
    Suspect,
    Stale,
}

/// Days after which a page of the given decay goes stale (`None`: never).
pub open spec fn threshold(decay: Seq<char>, default_days: u32) -> Option<int> {
    if decay == "fast"@ {
        Some(30)
    } else if decay == "evergreen"@ {
        None
    } else {
        Some(default_days as int)
    }
}

/// Freshness from decay and age: stale past the threshold, suspect past
/// three quarters of it, fresh otherwise; evergreen pages are always fresh.
pub open spec fn freshness(decay: Seq<char>, age_days: int, default_days: u32) -> FreshnessLevel {
    match threshold(decay, default_days) {
        None => FreshnessLevel::Fresh,
        Some(t) => if age_days > t {
            FreshnessLevel::Stale
        } else if age_days > t * 3 / 4 {
            FreshnessLevel::Suspect
        } else {
            FreshnessLevel::Fresh
        },
    }
}

impl FreshnessLevel {
    /// A suffix for listings: `""`, `" [suspect]"` or `" [stale]"`.
    pub fn suffix(&self) -> (r: &'static str)
        ensures
            r@ == match *self {
                FreshnessLevel::Fresh => ""@,
                FreshnessLevel::Suspect => " [suspect]"@,
                FreshnessLevel::Stale => " [stale]"@,
            },
    {
        match self {
            FreshnessLevel::Fresh => "",
            FreshnessLevel::Suspect => " [suspect]",
            FreshnessLevel::Stale => " [stale]",
        }
    }

    /// The level's name: `fresh`, `suspect` or `stale`.
    pub fn label(&self) -> (r: &'static str)
        ensures
            r@ == match *self {
                FreshnessLevel::Fresh => "fresh"@,
                FreshnessLevel::Suspect => "suspect"@,
                FreshnessLevel::Stale => "stale"@,
            },
    {
        match self {
            FreshnessLevel::Fresh => "fresh",
            FreshnessLevel::Suspect => "suspect",
            FreshnessLevel::Stale => "stale",
        }
    }
}

/// Compute freshness from decay level and age: `fast` pages go stale
/// after 30 days, `evergreen` pages never, all others after
/// `default_days`; a page past three quarters of its threshold is suspect.
pub fn compute_freshness(decay: &str, age_days: i64, default_days: u32) -> (r: FreshnessLevel)
    ensures
        r == freshness(decay@, age_days as int, default_days),
{
    proof {
        reveal_strlit("fast");
        reveal_strlit("evergreen");
    }
    let d = chars_of(decay);
    let fast = chars_of("fast");
    let ever = chars_of("evergreen");
    let t: i64 = if eq_chars(d.as_slice(), fast.as_slice()) {
        30
    } else if eq_chars(d.as_slice(), ever.as_slice()) {
        return FreshnessLevel::Fresh;
    } else {
        default_days as i64
    };
    if age_days > t {
        FreshnessLevel::Stale
    } else if age_days > t * 3 / 4 {
        FreshnessLevel::Suspect
    } else {
        FreshnessLevel::Fresh
    }
}

/// Freshness of a page from its decay and the age of its last commit;
/// a page without history counts as fresh.
pub fn page_freshness(decay: Option<&str>, age_days: Option<i64>, default_review_days: u32) -> (r:
    FreshnessLevel)
    ensures
        r == match age_days {
            Some(a) => freshness(
                match decay {
                    Some(d) => d@,
                    None => "normal"@,
                },
                a as int,
                default_review_days,
            ),
            None => FreshnessLevel::Fresh,
        },
{
    match age_days {
        Some(days) => match decay {
            Some(d) => compute_freshness(d, days, default_review_days),
            None => compute_freshness("normal", days, default_review_days),
        },
        None => FreshnessLevel::Fresh,
    }
}

// ───────────────────────── commit messages ─────────────────────────

/// The action recorded in a commit subject.
#[derive(Debug, Clone, Copy)]
pub enum CommitAction {
    Create,
    Update,
    Append,
    Upsert,
    Ingest,
    /// Quick-capture journal entry.
    Capture,
}

pub open spec fn action_name(a: CommitAction) -> Seq<char> {
    match a {
        CommitAction::Create => "create"@,
        CommitAction::Update => "update"@,
        CommitAction::Append => "append"@,
        CommitAction::Upsert => "upsert"@,
        CommitAction::Ingest => "ingest"@,
        CommitAction::Capture => "capture"@,
    }
}

impl CommitAction {
    /// The action's word in commit subjects.
    pub fn as_str(self) -> (r: &'static str)
        ensures
            r@ == action_name(self),
    {
        match self {
            CommitAction::Create => "create",
            CommitAction::Update => "update",
            CommitAction::Append => "append",
            CommitAction::Upsert => "upsert",
            CommitAction::Ingest => "ingest",
            CommitAction::Capture => "capture",
        }
    }
}

/// Caller-supplied options for an auto-commit.
#[derive(Debug)]
pub struct AutoCommitOpts<'a> {
    pub commit: bool,
    pub push: bool,
    pub author: Option<&'a str>,
    pub source: Option<&'a str>,
    /// Version recorded after `generator: lw v`.
    pub generator_version: &'a str,
}

/// What an auto-commit did.
#[derive(Debug, Default)]
pub struct AutoCommitOutcome {
    /// A commit was created.
    pub committed: bool,
    /// `git push` ran successfully.
    pub pushed: bool,
    /// Set when the working tree had changes outside the committed paths.
    pub dirty_warning: Option<String>,
}

/// The commit message: subject `docs(wiki): <action> <slug>`, a blank
/// line, then `generator: lw v<version>`, and `author:` / `source:` lines
/// when given.
pub open spec fn commit_message(
    action: CommitAction,
    slug: Seq<char>,
    version: Seq<char>,
    author: Option<Seq<char>>,
    source: Option<Seq<char>>,
) -> Seq<char> {
    "docs(wiki): "@ + action_name(action) + " "@ + slug + "\n\n"@ + "generator: lw v"@ + version
        + "\n"@ + match author {
        Some(a) => "author: "@ + a + "\n"@,
        None => Seq::empty(),
    } + match source {
        Some(s) => "source: "@ + s + "\n"@,
        None => Seq::empty(),
    }
}

pub open spec fn opt_str(o: Option<&str>) -> Option<Seq<char>> {
    match o {
        Some(s) => Some(s@),
        None => None,
    }
}

fn push_str(v: &mut Vec<char>, s: &str)
    ensures
        final(v)@ == old(v)@ + s@,
{
    let c = chars_of(s);
    push_all(v, c.as_slice());
}

/// Build the conventional-commit message for an auto-commit.
pub fn build_commit_message(action: CommitAction, page_slug: &str, opts: &AutoCommitOpts<'_>) -> (r:
    String)
    ensures
        r@ == commit_message(
            action,
            page_slug@,
            opts.generator_version@,
            opt_str(opts.author),
            opt_str(opts.source),
        ),
{
    let mut m: Vec<char> = Vec::new();
    push_str(&mut m, "docs(wiki): ");
    push_str(&mut m, action.as_str());
    push_str(&mut m, " ");
    push_str(&mut m, page_slug);
    push_str(&mut m, "\n\n");
    push_str(&mut m, "generator: lw v");
    push_str(&mut m, opts.generator_version);
    push_str(&mut m, "\n");
    let ghost base = m@;
    match opts.author {
        Some(a) => {
            push_str(&mut m, "author: ");
            push_str(&mut m, a);
            push_str(&mut m, "\n");
        },
        None => {},
    }
    let ghost mid = m@;
    match opts.source {
        Some(s) => {
            push_str(&mut m, "source: ");
            push_str(&mut m, s);
            push_str(&mut m, "\n");
        },
        None => {},
    }
    proof {
        let a_part = match opt_str(opts.author) {
            Some(a) => "author: "@ + a + "\n"@,
            None => Seq::<char>::empty(),
        };
        let s_part = match opt_str(opts.source) {
            Some(s) => "source: "@ + s + "\n"@,
            None => Seq::<char>::empty(),
        };
        assert(mid =~= base + a_part);
        assert(m@ =~= base + a_part + s_part);
    }
    string_of(m.as_slice())
}

/// `"Name <email>"` split into name and email (both trimmed); a string
/// without a well-formed `<…>` is all name, with email `noreply@local`.
pub open spec fn author_parts(s: Seq<char>) -> (Seq<char>, Seq<char>) {
    let open = index_of(s, '<');
    let close = index_of(s, '>');
    if open < s.len() && close < s.len() && open < close {
        (trim(s.take(open)), trim(s.subrange(open + 1, close)))
    } else {
        (trim(s), "noreply@local"@)
    }
}

/// Best-effort parse of `"Name <email>"` into `(name, email)`.
pub fn parse_author(s: &str) -> (r: (String, String))
    ensures
        (r.0@, r.1@) == author_parts(s@),
{
    let cs = chars_of(s);
    proof {
        crate::text::lemma_index_of(cs@, '<');
        crate::text::lemma_index_of(cs@, '>');
    }
    let open = find_char(cs.as_slice(), '<', 0);
    let close = find_char(cs.as_slice(), '>', 0);
    match (open, close) {
        (Some(o), Some(c)) => {
            proof {
                crate::text::lemma_index_of_unique(cs@, '<', o as int);
                crate::text::lemma_index_of_unique(cs@, '>', c as int);
            }
            if o < c {
                let name = slice_chars(cs.as_slice(), 0, o);
                let email = slice_chars(cs.as_slice(), o + 1, c);
                let tn = trim_chars(name.as_slice());
                let te = trim_chars(email.as_slice());
                return (string_of(tn.as_slice()), string_of(te.as_slice()));
            }
        },
        (None, _) => {
            proof {
                crate::text::lemma_index_of_unique(cs@, '<', cs@.len() as int);
            }
        },
        (_, None) => {
            proof {
                crate::text::lemma_index_of_unique(cs@, '>', cs@.len() as int);
            }
        },
    }
    let t = trim_chars(cs.as_slice());
    (string_of(t.as_slice()), owned("noreply@local"))
}

/// A path made relative to the repository toplevel: an absolute path under
/// the toplevel loses that prefix; any other path is kept.
pub fn normalize_against_toplevel(p: &str, toplevel: &str) -> (r: String)
    ensures
        r@ == if p@.len() > 0 && p@[0] == '/' && strip_prefix(p@, toplevel@) is Some {
            strip_prefix(p@, toplevel@)->0
        } else {
            p@
        },
{
    let cs = chars_of(p);
    if cs.len() > 0 && cs[0] == '/' {
        if let Some(rel) = path_strip_prefix(p, toplevel) {
            return rel;
        }
    }
    owned(p)
}

// ───────────────────────── the dirty-tree warning ─────────────────────────

/// Paths `git status` may report that are regenerable local artifacts: the
/// search index under `.lw/search/` and the backlinks build sentinel.
pub open spec fn is_ephemeral(p: Seq<char>) -> bool {
    ||| starts_with(p, ".lw/search/"@)
    ||| contains(p, "/.lw/search/"@)
    ||| p == ".lw/backlinks/.built"@
    ||| ends_with(p, "/.lw/backlinks/.built"@)
}

/// Whether a path from `git status --porcelain` is an ephemeral artifact.
pub fn is_lw_ephemeral(path_part: &str) -> (r: bool)
    ensures
        r == is_ephemeral(path_part@),
{
    let p = chars_of(path_part);
    let a = chars_of(".lw/search/");
    let b = chars_of("/.lw/search/");
    let c = chars_of(".lw/backlinks/.built");
    let d = chars_of("/.lw/backlinks/.built");
    if starts_with_exec(p.as_slice(), a.as_slice()) {
        return true;
    }
    match crate::text::find_from(p.as_slice(), b.as_slice(), 0) {
        Some(_) => return true,
        None => {
            proof {
                if contains(p@, b@) {
                    let k = choose|k: int| occurs_at(p@, b@, k);
                    assert(!occurs_at(p@, b@, k));
                }
            }
        },
    }
    eq_chars(p.as_slice(), c.as_slice()) || ends_with_exec(p.as_slice(), d.as_slice())
}

/// The path part of a porcelain status line: the line after its first
/// three bytes (status code and space), trimmed; empty when the line is
/// shorter or byte 3 does not start a character.
pub open spec fn status_path(line: Seq<char>) -> Seq<char> {
    if exists|k: int| 0 <= k <= line.len() && byte_len(line.take(k)) == 3 {
        trim(line.skip(choose|k: int| 0 <= k <= line.len() && byte_len(line.take(k)) == 3))
    } else {
        Seq::empty()
    }
}

/// One of our committed paths accounts for a dirty path.
pub open spec fn ours(dirty: Seq<char>, paths: Seq<Seq<char>>) -> bool {
    exists|i: int|
        0 <= i < paths.len() && (dirty == paths[i] || ends_with(dirty, "/"@ + paths[i])
            || ends_with(paths[i], "/"@ + dirty))
}

/// The dirty paths of a status listing that are neither ephemeral nor ours.
pub open spec fn other_dirty(ls: Seq<Seq<char>>, paths: Seq<Seq<char>>) -> Seq<Seq<char>>
    decreases ls.len(),
{
    if ls.len() == 0 {
        Seq::empty()
    } else {
        let rest = other_dirty(ls.drop_last(), paths);
        let p = status_path(ls.last());
        if p.len() == 0 || is_ephemeral(p) || ours(p, paths) {
            rest
        } else {
            rest.push(p)
        }
    }
}

/// The warning for a porcelain status listing, if other files are dirty:
/// the first three such paths, joined by `", "`, and `" (+N more)"` for
/// the rest.
pub open spec fn dirty_warning_spec(status: Seq<char>, paths: Seq<Seq<char>>) -> Option<Seq<char>> {
    let others = other_dirty(lines(status), paths);
    if others.len() == 0 {
        None
    } else {
        let preview = join(others.take(if others.len() < 3 { others.len() as int } else { 3 }), ", "@);
        let extra = if others.len() > 3 {
            " (+"@ + decimal((others.len() - 3) as nat) + " more)"@
        } else {
            Seq::empty()
        };
        Some(
            "warning: working tree has uncommitted changes elsewhere ("@ + preview + extra
                + "); only the wiki page was committed"@,
        )
    }
}

proof fn lemma_byte_prefix_unique(line: Seq<char>, k: int, j: int)
    requires
        0 <= k <= line.len(),
        0 <= j <= line.len(),
        byte_len(line.take(k)) == byte_len(line.take(j)),
    ensures
        k == j,
{
    if k < j {
        lemma_take_bytes_strict(line, k, j);
    } else if j < k {
        lemma_take_bytes_strict(line, j, k);
    }
}

proof fn lemma_take_bytes_strict(s: Seq<char>, i: int, j: int)
    requires
        0 <= i < j <= s.len(),
    ensures
        byte_len(s.take(i)) < byte_len(s.take(j)),
    decreases j - i,
{
    assert(s.take(j).drop_last() == s.take(j - 1));
    if i < j - 1 {
        lemma_take_bytes_strict(s, i, j - 1);
    }
}

/// The path part of a status line.
fn status_path_of(line: &[char]) -> (r: Vec<char>)
    ensures
        r@ == status_path(line@),
{
    // Count characters until 3 bytes are covered.
    let mut k: usize = 0;
    let mut bytes: usize = 0;
    proof {
        assert(line@.take(0) == Seq::<char>::empty());
    }
    while k < line.len() && bytes < 3
        invariant
            k <= line@.len(),
            bytes == byte_len(line@.take(k as int)),
            bytes <= 6,
            forall|j: int| 0 <= j < k ==> byte_len(line@.take(j)) < 3,
        decreases line@.len() - k,
    {
        proof {
            assert(line@.take(k + 1) == line@.take(k as int).push(line@[k as int]));
            lemma_byte_len_push(line@.take(k as int), line@[k as int]);
        }
        bytes = bytes + char_bytes(line[k]);
        k += 1;
    }
    if bytes == 3 {
        proof {
            let c = choose|c: int| 0 <= c <= line@.len() && byte_len(line@.take(c)) == 3;
            lemma_byte_prefix_unique(line@, c, k as int);
        }
        let rest = slice_chars(line, k, line.len());
        trim_chars(rest.as_slice())
    } else {
        proof {
            assert forall|c: int| 0 <= c <= line@.len() implies byte_len(line@.take(c)) != 3 by {
                if c < k {
                } else if c > k {
                    if bytes > 3 {
                        lemma_take_bytes_strict(line@, k as int, c);
                    } else {
                        assert(k == line@.len());
                    }
                }
            }
        }
        Vec::new()
    }
}

fn is_ours(dirty: &[char], paths: &Vec<String>) -> (r: bool)
    ensures
        r == ours(dirty@, views(paths@)),
{
    let slash = chars_of("/");
    let with_slash = crate::text::concat(slash.as_slice(), dirty);
    let mut i: usize = 0;
    while i < paths.len()
        invariant
            i <= paths@.len(),
            slash@ == "/"@,
            with_slash@ == "/"@ + dirty@,
            forall|j: int|
                0 <= j < i ==> !(dirty@ == views(paths@)[j] || ends_with(
                    dirty@,
                    "/"@ + views(paths@)[j],
                ) || ends_with(views(paths@)[j], "/"@ + dirty@)),
        decreases paths@.len() - i,
    {
        let p = chars_of(paths[i].as_str());
        let sp = crate::text::concat(slash.as_slice(), p.as_slice());
        if eq_chars(dirty, p.as_slice()) || ends_with_exec(dirty, sp.as_slice()) || ends_with_exec(
            p.as_slice(),
            with_slash.as_slice(),
        ) {
            assert(views(paths@)[i as int] == p@);
            return true;
        }
        assert(views(paths@)[i as int] == p@);
        i += 1;
    }
    false
}

/// The warning to show when `git status --porcelain` output lists dirty
/// paths other than the committed `paths` and the ephemeral artifacts.
pub fn dirty_warning(status: &str, paths: &Vec<String>) -> (r: Option<String>)
    ensures
        opt_chars(r) == dirty_warning_spec(status@, views(paths@)),
{
    let s = chars_of(status);
    let ls = lines_of(s.as_slice());
    let ghost lv = lines(status@);
    let mut others: Vec<Vec<char>> = Vec::new();
    let mut i: usize = 0;
    while i < ls.len()
        invariant
            i <= ls@.len(),
            ls@.len() == lv.len(),
            forall|k: int| 0 <= k < ls@.len() ==> (#[trigger] ls@[k])@ == lv[k],
            others@.map_values(|w: Vec<char>| w@) == other_dirty(lv.take(i as int), views(paths@)),
        decreases ls@.len() - i,
    {
        let p = status_path_of(ls[i].as_slice());
        proof {
            assert(lv.take(i + 1).drop_last() == lv.take(i as int));
            assert(lv.take(i + 1).last() == lv[i as int]);
        }
        let ps = string_of(p.as_slice());
        if p.len() > 0 && !is_lw_ephemeral(ps.as_str()) && !is_ours(p.as_slice(), paths) {
            let ghost before = others@;
            others.push(p);
            proof {
                assert(others@.map_values(|w: Vec<char>| w@) =~= before.map_values(
                    |w: Vec<char>| w@,
                ).push(status_path(lv[i as int])));
            }
        }
        i += 1;
    }
    proof {
        assert(lv.take(i as int) == lv);
    }
    let ghost ov = others@.map_values(|w: Vec<char>| w@);
    if others.len() == 0 {
        return None;
    }
    let n = others.len();
    let shown = if n < 3 {
        n
    } else {
        3
    };
    let mut firsts: Vec<Vec<char>> = Vec::new();
    let mut j: usize = 0;
    while j < shown
        invariant
            j <= shown <= others@.len(),
            ov == others@.map_values(|w: Vec<char>| w@),
            firsts@.map_values(|w: Vec<char>| w@) == ov.take(j as int),
        decreases shown - j,
    {
        let w = slice_chars(others[j].as_slice(), 0, others[j].len());
        let ghost before = firsts@;
        firsts.push(w);
        j += 1;
        proof {
            assert(others@[j - 1]@.subrange(0, others@[j - 1]@.len() as int) == ov[j - 1]);
            assert(firsts@.map_values(|w: Vec<char>| w@) =~= before.map_values(|w: Vec<char>| w@).push(
                ov[j - 1],
            ));
            assert(ov.take(j as int) =~= ov.take((j - 1) as int).push(ov[j - 1]));
        }
    }
    let sep = chars_of(", ");
    let preview = crate::text::join_chars(&firsts, sep.as_slice());
    let mut msg = chars_of("warning: working tree has uncommitted changes elsewhere (");
    push_all(&mut msg, preview.as_slice());
    let ghost before_extra = msg@;
    if n > 3 {
        push_str(&mut msg, " (+");
        let d = decimal_chars((n - 3) as u64);
        push_all(&mut msg, d.as_slice());
        push_str(&mut msg, " more)");
    }
    push_str(&mut msg, "); only the wiki page was committed");
    proof {
        let extra = if ov.len() > 3 {
            " (+"@ + decimal((ov.len() - 3) as nat) + " more)"@
        } else {
            Seq::<char>::empty()
        };
        assert(msg@ =~= before_extra + extra + "); only the wiki page was committed"@);
    }
    Some(string_of(msg.as_slice()))
}

/// The view of an optional string.
pub open spec fn opt_chars(o: Option<String>) -> Option<Seq<char>> {
    match o {
        Some(s) => Some(s@),
        None => None,
    }
}


// ───────────────────────── auto-commit policy ─────────────────────────

/// Where an auto-commit stands between two git operations.
#[derive(Debug)]
pub enum AutoCommitState {
    /// Nothing has been asked yet.
    Start,
    /// Waiting to hear whether the root lies in a git working tree.
    CheckingRepo,
    /// Waiting for the porcelain status of the working tree.
    ReadingStatus,
    /// Waiting for the commit; holds the warning about other dirty files.
    Committing { dirty_warning: Option<String> },
    /// Waiting for the push; holds the warning about other dirty files.
    Pushing { dirty_warning: Option<String> },
    /// The run is over.
    Done,
}

/// What the caller saw when it carried out the last request.
#[derive(Debug)]
pub enum GitEvent {
    /// The run begins.
    Begin,
    /// Whether the root lies in a git working tree.
    RepoChecked(bool),
    /// The output of `git status --porcelain --untracked-files=all` at the
    /// toplevel, or `None` when it could not be had.
    StatusRead(Option<String>),
    /// How staging and committing the paths went; the error is git's message.
    CommitDone(Result<(), String>),
    /// How `git push` went; the error is git's message.
    PushDone(Result<(), String>),
}

/// What the caller has to do next.
#[derive(Debug)]
pub enum GitRequest {
    /// Find out whether the root lies in a git working tree.
    CheckRepo,
    /// Read the porcelain status of the working tree.
    ReadStatus,
    /// Stage the paths and commit them with this message and author.
    Commit { message: String, author: Option<String> },
    /// Run `git push`.
    Push,
    /// The run is over, with this result.
    Finish(Result<AutoCommitOutcome, WikiError>),
}

/// The invariant of a run that began at `Start`: past the repository
/// check only when the caller asked for a commit, and at the push only
/// when it also asked for a push.
pub open spec fn consented(s: &AutoCommitState, opts: &AutoCommitOpts<'_>) -> bool {
    match s {
        AutoCommitState::ReadingStatus => opts.commit,
        AutoCommitState::Committing { .. } => opts.commit,
        AutoCommitState::Pushing { .. } => opts.commit && opts.push,
        _ => true,
    }
}

/// `req` ends the run successfully with these outcome fields.
pub open spec fn finishes_ok(req: GitRequest, committed: bool, pushed: bool, w: Option<Seq<char>>) -> bool {
    &&& req matches GitRequest::Finish(Ok(o))
    &&& o.committed == committed
    &&& o.pushed == pushed
    &&& opt_chars(o.dirty_warning) == w
}

/// `req` ends the run with a git error carrying `msg`.
pub open spec fn finishes_git_err(req: GitRequest, msg: Seq<char>) -> bool {
    req matches GitRequest::Finish(Err(WikiError::Git(m))) && m@ == msg
}

/// The dirty warning for a status read, as `dirty_warning` computes it.
pub open spec fn status_warning(status: Option<String>, paths: Seq<Seq<char>>) -> Option<Seq<char>> {
    match status {
        Some(t) => dirty_warning_spec(t@, paths),
        None => None,
    }
}

fn clone_str_opt(o: Option<&str>) -> (r: Option<String>)
    ensures
        opt_chars(r) == opt_str(o),
{
    match o {
        Some(s) => Some(owned(s)),
        None => None,
    }
}

/// One step of the auto-commit policy: given where the run stands and what
/// the caller just saw, the next state and what the caller does next.
///
/// A root outside git, or `opts.commit == false`, ends the run with nothing
/// committed. Otherwise the working tree's status is read first: dirty
/// files outside `paths` give a warning, and the commit still goes ahead
/// with `paths` only. A failed commit or push ends the run with its git
/// error; a push runs only after a successful commit and only when
/// `opts.push` asks for it.
pub fn auto_commit(
    state: AutoCommitState,
    event: GitEvent,
    paths: &Vec<String>,
    action: CommitAction,
    page_slug: &str,
    opts: &AutoCommitOpts<'_>,
) -> (r: (AutoCommitState, GitRequest))
    ensures
        match (state, event) {
            (AutoCommitState::Start, GitEvent::Begin) => r.0 is CheckingRepo && r.1 is CheckRepo,
            (AutoCommitState::CheckingRepo, GitEvent::RepoChecked(git)) => if !git || !opts.commit {
                r.0 is Done && finishes_ok(r.1, false, false, None)
            } else {
                r.0 is ReadingStatus && r.1 is ReadStatus
            },
            (AutoCommitState::ReadingStatus, GitEvent::StatusRead(st)) => if paths.len() == 0 {
                r.0 is Done && finishes_git_err(r.1, "commit_paths requires at least one path"@)
            } else {
                &&& r.0 matches AutoCommitState::Committing { dirty_warning: w }
                    && opt_chars(w) == status_warning(st, views(paths@))
                &&& r.1 matches GitRequest::Commit { message, author }
                    && message@ == commit_message(
                    action,
                    page_slug@,
                    opts.generator_version@,
                    opt_str(opts.author),
                    opt_str(opts.source),
                ) && opt_chars(author) == opt_str(opts.author)
            },
            (AutoCommitState::Committing { dirty_warning: w }, GitEvent::CommitDone(res)) => match res {
                Err(m) => r.0 is Done && finishes_git_err(r.1, m@),
                Ok(_) => if opts.push {
                    r.0 matches AutoCommitState::Pushing { dirty_warning: w2 } && opt_chars(w2)
                        == opt_chars(w) && r.1 is Push
                } else {
                    r.0 is Done && finishes_ok(r.1, true, false, opt_chars(w))
                },
            },
            (AutoCommitState::Pushing { dirty_warning: w }, GitEvent::PushDone(res)) => match res {
                Err(m) => r.0 is Done && finishes_git_err(r.1, m@),
                Ok(_) => r.0 is Done && finishes_ok(r.1, true, true, opt_chars(w)),
            },
            _ => r.0 is Done && r.1 matches GitRequest::Finish(Err(WikiError::Internal(_))),
        },
        r.1 matches GitRequest::Finish(Ok(o)) ==> (o.pushed ==> o.committed),
        consented(&state, opts) ==> consented(&r.0, opts),
        consented(&state, opts) ==> (r.1 is Commit ==> opts.commit) && (r.1 is Push ==> opts.commit
            && opts.push),
        consented(&state, opts) ==> (r.1 matches GitRequest::Finish(Ok(o)) ==> (o.committed
            ==> opts.commit) && (o.pushed ==> opts.push)),
{
    let none = AutoCommitOutcome { committed: false, pushed: false, dirty_warning: None };
    match (state, event) {
        (AutoCommitState::Start, GitEvent::Begin) => (AutoCommitState::CheckingRepo, GitRequest::CheckRepo),
        (AutoCommitState::CheckingRepo, GitEvent::RepoChecked(git)) => {
            if !git || !opts.commit {
                (AutoCommitState::Done, GitRequest::Finish(Ok(none)))
            } else {
                (AutoCommitState::ReadingStatus, GitRequest::ReadStatus)
            }
        },
        (AutoCommitState::ReadingStatus, GitEvent::StatusRead(st)) => {
            if paths.len() == 0 {
                return (
                    AutoCommitState::Done,
                    GitRequest::Finish(Err(WikiError::Git(owned("commit_paths requires at least one path")))),
                );
            }
            let w = match st {
                Some(t) => dirty_warning(t.as_str(), paths),
                None => None,
            };
            let message = build_commit_message(action, page_slug, opts);
            let author = clone_str_opt(opts.author);
            (AutoCommitState::Committing { dirty_warning: w }, GitRequest::Commit { message, author })
        },
        (AutoCommitState::Committing { dirty_warning: w }, GitEvent::CommitDone(res)) => {
            match res {
                Err(m) => (AutoCommitState::Done, GitRequest::Finish(Err(WikiError::Git(m)))),
                Ok(_) => {
                    if opts.push {
                        (AutoCommitState::Pushing { dirty_warning: w }, GitRequest::Push)
                    } else {
                        (
                            AutoCommitState::Done,
                            GitRequest::Finish(Ok(AutoCommitOutcome { committed: true, pushed: false, dirty_warning: w })),
                        )
                    }
                },
            }
        },
        (AutoCommitState::Pushing { dirty_warning: w }, GitEvent::PushDone(res)) => {
            match res {
                Err(m) => (AutoCommitState::Done, GitRequest::Finish(Err(WikiError::Git(m)))),
                Ok(_) => (
                    AutoCommitState::Done,
                    GitRequest::Finish(Ok(AutoCommitOutcome { committed: true, pushed: true, dirty_warning: w })),
                ),
            }
        },
        _ => (
            AutoCommitState::Done,
            GitRequest::Finish(Err(WikiError::Internal(owned("git event out of order")))),
        ),
    }
}


// ───────────────────────── commit times from `git log` ─────────────────────────

/// The value of a non-empty run of ASCII digits.
pub open spec fn digits_value(s: Seq<char>) -> Option<int>
    decreases s.len(),
{
    if s.len() == 0 {
        None
    } else if '0' <= s.last() && s.last() <= '9' {
        let d = s.last() as int - '0' as int;
        if s.len() == 1 {
            Some(d)
        } else {
            match digits_value(s.drop_last()) {
                Some(v) => Some(v * 10 + d),
                None => None,
            }
        }
    } else {
        None
    }
}

/// The integer a text denotes in the form `str::parse` accepts: an
/// optional `+` or `-` followed by at least one ASCII digit.
pub open spec fn int_text(s: Seq<char>) -> Option<int> {
    if s.len() > 0 && s[0] == '-' {
        match digits_value(s.drop_first()) {
            Some(v) => Some(-v),
            None => None,
        }
    } else if s.len() > 0 && s[0] == '+' {
        digits_value(s.drop_first())
    } else {
        digits_value(s)
    }
}

proof fn lemma_digits_some(s: Seq<char>)
    requires
        s.len() > 0,
        forall|k: int| 0 <= k < s.len() ==> '0' <= #[trigger] s[k] && s[k] <= '9',
    ensures
        digits_value(s) is Some,
        digits_value(s)->0 >= 0,
    decreases s.len(),
{
    if s.len() > 1 {
        assert forall|k: int| 0 <= k < s.drop_last().len() implies '0' <= #[trigger] s.drop_last()[k]
            && s.drop_last()[k] <= '9' by {
            assert(s.drop_last()[k] == s[k]);
        }
        lemma_digits_some(s.drop_last());
    }
}

proof fn lemma_digits_none(s: Seq<char>, k: int)
    requires
        0 <= k < s.len(),
        !('0' <= s[k] && s[k] <= '9'),
    ensures
        digits_value(s) is None,
    decreases s.len(),
{
    if k < s.len() - 1 {
        assert(s.drop_last()[k] == s[k]);
        lemma_digits_none(s.drop_last(), k);
    }
}

/// The value of the digits `cs[from..]`, when they are all ASCII digits
/// and at least one: `Some((v, big))` where `big` says the value exceeds
/// 2^63 and `v` is the value otherwise.
fn digits_exec(cs: &[char], from: usize) -> (r: Option<(u128, bool)>)
    requires
        from <= cs@.len(),
    ensures
        match r {
            Some((v, big)) => digits_value(cs@.skip(from as int)) matches Some(d) && (big <==> d
                > 0x8000_0000_0000_0000) && (!big ==> v == d),
            None => digits_value(cs@.skip(from as int)) is None,
        },
{
    let ghost ds = cs@.skip(from as int);
    if from == cs.len() {
        return None;
    }
    let mut k: usize = from;
    while k < cs.len()
        invariant
            from <= k <= cs@.len(),
            ds == cs@.skip(from as int),
            forall|j: int| 0 <= j < k - from ==> '0' <= #[trigger] ds[j] && ds[j] <= '9',
        decreases cs@.len() - k,
    {
        if !('0' <= cs[k] && cs[k] <= '9') {
            proof {
                assert(ds[k - from] == cs@[k as int]);
                lemma_digits_none(ds, k - from);
            }
            return None;
        }
        assert(ds[k - from] == cs@[k as int]);
        k += 1;
    }
    let mut acc: u128 = 0;
    let mut big = false;
    let mut j: usize = from;
    while j < cs.len()
        invariant
            from <= j <= cs@.len(),
            from < cs@.len(),
            ds == cs@.skip(from as int),
            forall|q: int| 0 <= q < ds.len() ==> '0' <= #[trigger] ds[q] && ds[q] <= '9',
            j > from ==> (digits_value(ds.take(j - from)) matches Some(d) && (big <==> d
                > 0x8000_0000_0000_0000) && (!big ==> acc == d)),
            j == from ==> acc == 0 && !big,
            acc <= 0x8000_0000_0000_0000,
        decreases cs@.len() - j,
    {
        let ghost pre = ds.take(j - from);
        let ghost nxt = ds.take(j - from + 1);
        proof {
            assert(nxt.drop_last() =~= pre);
            assert(nxt.last() == ds[j - from]);
            assert(ds[j - from] == cs@[j as int]);
            if j > from {
                lemma_digits_some(pre);
            }
        }
        let d = (cs[j] as u32 - '0' as u32) as u128;
        if !big {
            let n = acc * 10 + d;
            if n > 0x8000_0000_0000_0000 {
                big = true;
                acc = 0x8000_0000_0000_0000;
            } else {
                acc = n;
            }
        }
        j += 1;
    }
    proof {
        assert(ds.take(j - from) =~= ds);
    }
    Some((acc, big))
}

/// `str::parse::<i64>`, written out: an optional sign and ASCII digits
/// denoting a value in range; anything else (whitespace included) is
/// `None`.
fn parse_i64(s: &str) -> (r: Option<i64>)
    ensures
        r == match int_text(s@) {
            Some(v) => if i64::MIN <= v && v <= i64::MAX {
                Some(v as i64)
            } else {
                None
            },
            None => None,
        },
{
    let cs = chars_of(s);
    if cs.len() > 0 && cs[0] == '-' {
        assert(cs@.skip(1) =~= s@.drop_first());
        match digits_exec(cs.as_slice(), 1) {
            Some((v, big)) => {
                if big {
                    None
                } else if v == 0x8000_0000_0000_0000 {
                    Some(i64::MIN)
                } else {
                    Some(-(v as i64))
                }
            },
            None => None,
        }
    } else {
        let from: usize = if cs.len() > 0 && cs[0] == '+' {
            1
        } else {
            0
        };
        assert(cs@.skip(1) =~= s@.drop_first());
        assert(cs@.skip(0) =~= s@);
        match digits_exec(cs.as_slice(), from) {
            Some((v, big)) => {
                if big || v > 0x7FFF_FFFF_FFFF_FFFF {
                    None
                } else {
                    Some(v as i64)
                }
            },
            None => None,
        }
    }
}

/// The timestamp `git log -1 --format=%at` printed: the trimmed output as
/// an integer.
pub open spec fn log_timestamp_spec(out: Seq<char>) -> Option<i64> {
    match int_text(trim(out)) {
        Some(v) => if i64::MIN <= v && v <= i64::MAX {
            Some(v as i64)
        } else {
            None
        },
        None => None,
    }
}

/// Read the commit timestamp out of `git log --format=%at` output.
pub fn log_timestamp(output: &str) -> (r: Option<i64>)
    ensures
        r == log_timestamp_spec(output@),
{
    let t = trim_chars(chars_of(output).as_slice());
    let ts = string_of(t.as_slice());
    parse_i64(ts.as_str())
}

/// Division rounding toward zero, as Rust's `/` on integers.
pub open spec fn trunc_div(a: int, b: int) -> int {
    if a >= 0 {
        a / b
    } else {
        -((-a) / b)
    }
}

/// A page's age in whole days, from its last commit's timestamp and the
/// current time (both in seconds since the epoch); a zero timestamp means
/// no history.
pub fn age_in_days(ts: i64, now: i64) -> (r: Option<i64>)
    requires
        i64::MIN <= now - ts <= i64::MAX,
    ensures
        r == if ts == 0 {
            None
        } else {
            Some(trunc_div(now - ts, 86400) as i64)
        },
{
    if ts == 0 {
        return None;
    }
    let d: i64 = now - ts;
    if d >= 0 {
        Some(d / 86400)
    } else {
        let mag: u64 = (-(d + 1)) as u64 + 1;
        let q: u64 = mag / 86400;
        proof {
            assert(mag == -d);
            assert(q <= 0x8000_0000_0000_0000u64 / 86400);
        }
        Some(-(q as i64))
    }
}

/// The first commit's timestamp from `git log --reverse --format=%at`:
/// the first line that is not blank, parsed, when positive.
pub open spec fn first_commit_spec(ls: Seq<Seq<char>>) -> Option<i64>
    decreases ls.len(),
{
    if ls.len() == 0 {
        None
    } else if trim(ls[0]).len() > 0 {
        match log_timestamp_spec(ls[0]) {
            Some(t) => if t > 0 {
                Some(t)
            } else {
                None
            },
            None => None,
        }
    } else {
        first_commit_spec(ls.drop_first())
    }
}

/// Read the first commit time out of `git log --reverse` output.
pub fn first_commit_time(output: &str) -> (r: Option<i64>)
    ensures
        r == first_commit_spec(lines(output@)),
{
    let cs = chars_of(output);
    let ls = lines_of(cs.as_slice());
    let ghost lv = lines(output@);
    let mut i: usize = 0;
    proof {
        assert(lv.skip(0) == lv);
    }
    while i < ls.len()
        invariant
            i <= ls@.len(),
            lv == lines(output@),
            cs@ == output@,
            ls@.len() == lv.len(),
            forall|k: int| 0 <= k < ls@.len() ==> (#[trigger] ls@[k])@ == lv[k],
            first_commit_spec(lv) == first_commit_spec(lv.skip(i as int)),
        decreases ls@.len() - i,
    {
        proof {
            assert(lv.skip(i as int)[0] == lv[i as int]);
            assert(lv.skip(i as int).drop_first() == lv.skip(i + 1));
        }
        let t = trim_chars(ls[i].as_slice());
        if t.len() > 0 {
            let line = string_of(ls[i].as_slice());
            return match log_timestamp(line.as_str()) {
                Some(v) => if v > 0 {
                    Some(v)
                } else {
                    None
                },
                None => None,
            };
        }
        i += 1;
    }
    proof {
        assert(lv.skip(i as int).len() == 0);
    }
    None
}

} // verus!
