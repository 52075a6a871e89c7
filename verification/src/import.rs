//! Importing posts from a Twitter/X export as wiki pages.

use crate::page::{slug_of, slugify, Page};
use crate::text::{
    byte_len, char_bytes, chars_of, decimal, decimal_chars, lemma_byte_len_push, owned, push_all,
    string_of, trim, trim_chars,
};
use vstd::prelude::*;

verus! {

/// One post of an export.
#[derive(Debug, Clone)]
pub struct Tweet {
    pub id: String,
    pub full_text: String,
    pub screen_name: String,
    pub name: String,
    pub created_at: String,
    pub url: String,
    pub favorite_count: u64,
    pub bookmark_count: u64,
    pub views_count: u64,
    pub retweet_count: u64,
    pub quote_count: u64,
    pub reply_count: u64,
}

/// A post turned into a page.
#[derive(Debug)]
pub struct ImportedPage {
    pub title: String,
    pub slug: String,
    pub page: Page,
    pub source_id: String,
}

/// The title of a post: its first 60 characters with line breaks turned
/// into spaces, trimmed.
pub open spec fn tweet_title(text: Seq<char>) -> Seq<char> {
    trim(
        text.take(if text.len() < 60 {
            text.len() as int
        } else {
            60
        }).map_values(|c: char| if c == '\n' {
            ' '
        } else {
            c
        }),
    )
}

/// The body of an imported post: the text, a rule, and its source,
/// author, date and engagement figures.
pub open spec fn tweet_body(t: Tweet) -> Seq<char> {
    t.full_text@ + "\n\n---\nSource: "@ + t.url@ + "\nAuthor: @"@ + t.screen_name@ + " ("@ + t.name@
        + ")\nDate: "@ + t.created_at@ + "\nEngagement: "@ + "likes:"@ + decimal(
        t.favorite_count as nat,
    ) + " bookmarks:"@ + decimal(t.bookmark_count as nat) + " views:"@ + decimal(
        t.views_count as nat,
    ) + "\n"@
}

/// The slug of an imported post: the slug of its title, or `tweet-<id>`
/// when that is empty.
pub open spec fn tweet_slug(t: Tweet) -> Seq<char> {
    if slug_of(tweet_title(t.full_text@)).len() > 0 {
        slug_of(tweet_title(t.full_text@))
    } else {
        "tweet-"@ + t.id@
    }
}

/// Posts shorter than 20 bytes are skipped.
pub open spec fn importable(t: Tweet) -> bool {
    byte_len(t.full_text@) >= 20
}

/// The posts that are imported: the importable ones, at most `limit`.
pub open spec fn imported(ts: Seq<Tweet>, limit: Option<usize>) -> Seq<Tweet>
    decreases ts.len(),
{
    if ts.len() == 0 {
        Seq::empty()
    } else {
        let before = imported(ts.drop_last(), limit);
        if importable(ts.last()) && (match limit {
            Some(m) => before.len() < m,
            None => true,
        }) {
            before.push(ts.last())
        } else {
            before
        }
    }
}

/// `p` is the page made of post `t`.
pub open spec fn imports(p: ImportedPage, t: Tweet) -> bool {
    &&& p.title@ == tweet_title(t.full_text@)
    &&& p.slug@ == tweet_slug(t)
    &&& p.source_id@ == t.id@
    &&& p.page.title@ == tweet_title(t.full_text@)
    &&& p.page.tags@.len() == 0
    &&& p.page.decay matches Some(d) && d@ == "fast"@
    &&& p.page.sources@.len() == 1 && p.page.sources@[0]@ == "twitter-import"@
    &&& p.page.author matches Some(a) && a@ == t.screen_name@
    &&& p.page.generator matches Some(g) && g@ == "lw-import"@
    &&& p.page.related is None
    &&& p.page.status is None
    &&& p.page.aliases@.len() == 0
    &&& p.page.body@ == tweet_body(t)
}

fn at_least_20_bytes(s: &str) -> (r: bool)
    ensures
        r == (byte_len(s@) >= 20),
{
    let cs = chars_of(s);
    let mut n: usize = 0;
    let mut i: usize = 0;
    while i < cs.len()
        invariant
            i <= cs@.len(),
            cs@ == s@,
            n == byte_len(cs@.take(i as int)),
            n < 20,
        decreases cs@.len() - i,
    {
        proof {
            lemma_byte_len_push(cs@.take(i as int), cs@[i as int]);
            assert(cs@.take(i + 1) == cs@.take(i as int).push(cs@[i as int]));
        }
        n = n + char_bytes(cs[i]);
        i += 1;
        if n >= 20 {
            proof {
                lemma_byte_len_prefix(cs@, i as int);
            }
            return true;
        }
    }
    proof {
        assert(cs@.take(i as int) == cs@);
    }
    false
}

proof fn lemma_byte_len_prefix(s: Seq<char>, i: int)
    requires
        0 <= i <= s.len(),
    ensures
        byte_len(s.take(i)) <= byte_len(s),
    decreases s.len() - i,
{
    if i < s.len() {
        lemma_byte_len_prefix(s, i + 1);
        lemma_byte_len_push(s.take(i), s[i]);
        assert(s.take(i + 1) == s.take(i).push(s[i]));
    } else {
        assert(s.take(i) == s);
    }
}

fn title_of(text: &str) -> (r: String)
    ensures
        r@ == tweet_title(text@),
{
    let cs = chars_of(text);
    let n = if cs.len() < 60 {
        cs.len()
    } else {
        60
    };
    let mut out: Vec<char> = Vec::new();
    let mut i: usize = 0;
    while i < n
        invariant
            i <= n <= cs@.len(),
            out@ == cs@.take(i as int).map_values(|c: char| if c == '\n' {
                ' '
            } else {
                c
            }),
        decreases n - i,
    {
        let c = cs[i];
        out.push(if c == '\n' {
            ' '
        } else {
            c
        });
        proof {
            assert(cs@.take(i + 1).map_values(|c: char| if c == '\n' {
                ' '
            } else {
                c
            }) =~= cs@.take(i as int).map_values(|c: char| if c == '\n' {
                ' '
            } else {
                c
            }).push(if c == '\n' {
                ' '
            } else {
                c
            }));
        }
        i += 1;
    }
    string_of(trim_chars(out.as_slice()).as_slice())
}

fn body_of(t: &Tweet) -> (r: String)
    ensures
        r@ == tweet_body(*t),
{
    let mut b = chars_of(t.full_text.as_str());
    push_all(&mut b, chars_of("\n\n---\nSource: ").as_slice());
    push_all(&mut b, chars_of(t.url.as_str()).as_slice());
    push_all(&mut b, chars_of("\nAuthor: @").as_slice());
    push_all(&mut b, chars_of(t.screen_name.as_str()).as_slice());
    push_all(&mut b, chars_of(" (").as_slice());
    push_all(&mut b, chars_of(t.name.as_str()).as_slice());
    push_all(&mut b, chars_of(")\nDate: ").as_slice());
    push_all(&mut b, chars_of(t.created_at.as_str()).as_slice());
    push_all(&mut b, chars_of("\nEngagement: ").as_slice());
    push_all(&mut b, chars_of("likes:").as_slice());
    push_all(&mut b, decimal_chars(t.favorite_count).as_slice());
    push_all(&mut b, chars_of(" bookmarks:").as_slice());
    push_all(&mut b, decimal_chars(t.bookmark_count).as_slice());
    push_all(&mut b, chars_of(" views:").as_slice());
    push_all(&mut b, decimal_chars(t.views_count).as_slice());
    push_all(&mut b, chars_of("\n").as_slice());
    string_of(b.as_slice())
}

fn import_one(t: &Tweet) -> (r: ImportedPage)
    ensures
        imports(r, *t),
{
    let title = title_of(t.full_text.as_str());
    let s = slugify(title.as_str());
    let slug = if !s.as_str().is_empty() {
        s
    } else {
        let mut v = chars_of("tweet-");
        push_all(&mut v, chars_of(t.id.as_str()).as_slice());
        string_of(v.as_slice())
    };
    let mut sources: Vec<String> = Vec::new();
    sources.push(owned("twitter-import"));
    let page = Page {
        title: owned(title.as_str()),
        tags: Vec::new(),
        decay: Some(owned("fast")),
        sources,
        author: Some(owned(t.screen_name.as_str())),
        generator: Some(owned("lw-import")),
        related: None,
        status: None,
        aliases: Vec::new(),
        body: body_of(t),
    };
    ImportedPage { title, slug, page, source_id: owned(t.id.as_str()) }
}

/// Turn the posts of an export into pages: posts shorter than 20 bytes
/// are skipped, and at most `limit` pages are made.
pub fn import_tweets(tweets: &Vec<Tweet>, limit: Option<usize>) -> (r: Vec<ImportedPage>)
    ensures
        r@.len() == imported(tweets@, limit).len(),
        forall|i: int| 0 <= i < r@.len() ==> imports(#[trigger] r@[i], imported(tweets@, limit)[i]),
{
    let mut r: Vec<ImportedPage> = Vec::new();
    let mut i: usize = 0;
    while i < tweets.len()
        invariant
            i <= tweets@.len(),
            r@.len() == imported(tweets@.take(i as int), limit).len(),
            forall|k: int|
                0 <= k < r@.len() ==> imports(#[trigger] r@[k], imported(tweets@.take(i as int), limit)[k]),
        decreases tweets@.len() - i,
    {
        proof {
            assert(tweets@.take(i + 1).drop_last() == tweets@.take(i as int));
            assert(tweets@.take(i + 1).last() == tweets@[i as int]);
        }
        let full = match limit {
            Some(m) => r.len() >= m,
            None => false,
        };
        if full {
            // Every later post is left out as well.
            proof {
                lemma_imported_stays(tweets@, limit, i as int);
            }
            return r;
        }
        if at_least_20_bytes(tweets[i].full_text.as_str()) {
            let p = import_one(&tweets[i]);
            let ghost before = r@;
            r.push(p);
            proof {
                assert forall|k: int| 0 <= k < r@.len() implies imports(
                    #[trigger] r@[k],
                    imported(tweets@.take(i + 1), limit)[k],
                ) by {
                    if k < before.len() {
                        assert(r@[k] == before[k]);
                    }
                }
            }
        }
        i += 1;
    }
    proof {
        assert(tweets@.take(i as int) == tweets@);
    }
    r
}

/// Once `limit` pages are made, the rest of the posts add none.
proof fn lemma_imported_stays(ts: Seq<Tweet>, limit: Option<usize>, i: int)
    requires
        0 <= i <= ts.len(),
        limit matches Some(m) && imported(ts.take(i), limit).len() >= m,
    ensures
        imported(ts, limit) == imported(ts.take(i), limit),
    decreases ts.len() - i,
{
    if i < ts.len() {
        assert(ts.take(i + 1).drop_last() == ts.take(i));
        assert(imported(ts.take(i + 1), limit) == imported(ts.take(i), limit));
        lemma_imported_stays(ts, limit, i + 1);
    } else {
        assert(ts.take(i) == ts);
    }
}

} // verus!
