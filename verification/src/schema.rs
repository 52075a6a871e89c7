//! The wiki schema (`.lw/schema.toml`): name, review period, categories,
//! per-category decay defaults and page templates.

use crate::assoc::{find_key, key_pos};
use crate::text::{clone_strings, owned, views};
use vstd::prelude::*;

verus! {

/// Number of days after which an untriaged journal capture is stale.
pub const DEFAULT_STALE_AFTER_DAYS: u32 = 7;

/// Per-category configuration block (`[categories.<name>]`).
#[derive(Debug, Clone, Default, PartialEq, Eq)]
pub struct CategoryConfig {
    pub review_days: Option<u32>,
    pub required_fields: Vec<String>,
    pub template: String,
}

/// The `[wiki]` block.
#[derive(Debug, Clone)]
pub struct WikiConfig {
    pub name: String,
    pub default_review_days: u32,
}

/// The `[tags]` block. `decay_defaults` maps a category to its decay.
#[derive(Debug, Clone)]
pub struct TagsConfig {
    pub categories: Vec<String>,
    pub decay_defaults: Vec<(String, String)>,
}

/// The `[journal]` block.
#[derive(Debug, Clone, Default)]
pub struct JournalConfig {
    pub stale_after_days: Option<u32>,
}

/// A whole schema. `categories` maps a category name to its block.
#[derive(Debug, Clone)]
pub struct WikiSchema {
    pub wiki: WikiConfig,
    pub tags: TagsConfig,
    pub categories: Vec<(String, CategoryConfig)>,
    pub journal: JournalConfig,
}

/// The decay a schema assigns to `category`: its `decay_defaults` entry,
/// or `"normal"`.
pub open spec fn decay_spec(s: WikiSchema, category: Seq<char>) -> Seq<char> {
    let p = key_pos(s.tags.decay_defaults@, category);
    if p < s.tags.decay_defaults@.len() {
        s.tags.decay_defaults@[p].1@
    } else {
        "normal"@
    }
}

fn pair(k: &str, v: &str) -> (r: (String, String))
    ensures
        r.0@ == k@,
        r.1@ == v@,
{
    (owned(k), owned(v))
}

impl WikiSchema {
    /// The decay level for pages of `category`.
    pub fn decay_for_category(&self, category: &str) -> (r: &str)
        ensures
            r@ == decay_spec(*self, category@),
    {
        match find_key(&self.tags.decay_defaults, category) {
            Some(i) => self.tags.decay_defaults[i].1.as_str(),
            None => {
                proof {
                    reveal_strlit("normal");
                }
                "normal"
            },
        }
    }

    /// Directories created under `wiki/`: every category plus
    /// `_uncategorized`.
    pub fn category_dirs(&self) -> (r: Vec<String>)
        ensures
            views(r@) == views(self.tags.categories@).push("_uncategorized"@),
    {
        let mut dirs = clone_strings(&self.tags.categories);
        let u = owned("_uncategorized");
        let ghost before = dirs@;
        dirs.push(u);
        proof {
            assert(views(dirs@) =~= views(before).push(u@));
        }
        dirs
    }

    /// The configuration block of a category, if the schema has one.
    pub fn category_config(&self, name: &str) -> (r: Option<&CategoryConfig>)
        ensures
            key_pos(self.categories@, name@) < self.categories@.len() ==> r == Some(
                &self.categories@[key_pos(self.categories@, name@)].1,
            ),
            key_pos(self.categories@, name@) >= self.categories@.len() ==> r is None,
    {
        match find_key(&self.categories, name) {
            Some(i) => Some(&self.categories[i].1),
            None => None,
        }
    }

    /// The journal staleness threshold in days (`[journal]
    /// stale_after_days`, 7 when absent).
    pub fn journal_stale_after_days(&self) -> (r: u32)
        ensures
            r == match self.journal.stale_after_days {
                Some(d) => d,
                None => DEFAULT_STALE_AFTER_DAYS,
            },
    {
        match self.journal.stale_after_days {
            Some(d) => d,
            None => DEFAULT_STALE_AFTER_DAYS,
        }
    }
}

/// The categories of the default schema, in order.
pub open spec fn default_categories() -> Seq<Seq<char>> {
    seq!["architecture"@, "training"@, "infra"@, "tools"@, "product"@, "ops"@]
}

impl Default for WikiSchema {
    /// "LLM Wiki", 90 review days, six categories; product and tools decay
    /// fast, the others normally.
    fn default() -> (r: Self)
        ensures
            r.wiki.name@ == "LLM Wiki"@,
            r.wiki.default_review_days == 90,
            views(r.tags.categories@) == default_categories(),
            r.tags.decay_defaults@.len() == 6,
            r.tags.decay_defaults@[0].0@ == "product"@ && r.tags.decay_defaults@[0].1@ == "fast"@,
            r.tags.decay_defaults@[1].0@ == "architecture"@ && r.tags.decay_defaults@[1].1@
                == "normal"@,
            r.tags.decay_defaults@[2].0@ == "training"@ && r.tags.decay_defaults@[2].1@
                == "normal"@,
            r.tags.decay_defaults@[3].0@ == "infra"@ && r.tags.decay_defaults@[3].1@ == "normal"@,
            r.tags.decay_defaults@[4].0@ == "tools"@ && r.tags.decay_defaults@[4].1@ == "fast"@,
            r.tags.decay_defaults@[5].0@ == "ops"@ && r.tags.decay_defaults@[5].1@ == "normal"@,
            r.categories@.len() == 0,
            r.journal.stale_after_days is None,
    {
        let mut cats: Vec<String> = Vec::new();
        cats.push(owned("architecture"));
        cats.push(owned("training"));
        cats.push(owned("infra"));
        cats.push(owned("tools"));
        cats.push(owned("product"));
        cats.push(owned("ops"));
        proof {
            assert(views(cats@) =~= default_categories());
        }
        let mut decay: Vec<(String, String)> = Vec::new();
        decay.push(pair("product", "fast"));
        decay.push(pair("architecture", "normal"));
        decay.push(pair("training", "normal"));
        decay.push(pair("infra", "normal"));
        decay.push(pair("tools", "fast"));
        decay.push(pair("ops", "normal"));
        WikiSchema {
            wiki: WikiConfig { name: owned("LLM Wiki"), default_review_days: 90 },
            tags: TagsConfig { categories: cats, decay_defaults: decay },
            categories: Vec::new(),
            journal: JournalConfig { stale_after_days: None },
        }
    }
}

} // verus!
