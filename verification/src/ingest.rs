//! Filing raw sources: the names they may be filed under, and the slug a
//! source is given from its title or its first heading.

use crate::error::WikiError;
use crate::git::opt_chars;
use crate::page::{slug_of, slugify};
use crate::path::{comp_view, components, components_of, Component};
use crate::text::{
    chars_of, concat, lines, lines_of, owned, slice_chars, starts_with, string_of, trim,
    trim_chars,
};
use vstd::prelude::*;

verus! {

/// Where an ingested source was filed.
#[derive(Debug)]
pub struct IngestResult {
    pub raw_path: String,
}

/// A name that is exactly one ordinary path component (no separator in
/// between, no `.`, `..` or root).
pub open spec fn single_component(v: Seq<char>) -> bool {
    components(v).len() == 1 && components(v)[0] is Normal
}

/// The error for a bad `field` name: empty, or not one ordinary component.
pub open spec fn component_error(field: Seq<char>, value: Seq<char>) -> Seq<char> {
    if value.len() == 0 {
        field + " must not be empty"@
    } else {
        "invalid "@ + field + ": `"@ + value + "` must be a single path component"@
    }
}

/// Accept `value` as a file or directory name under `raw/` only when it is a
/// single ordinary path component; the error names the `field`.
pub fn ensure_single_component(field: &str, value: &str) -> (r: Result<(), WikiError>)
    ensures
        r is Ok <==> value@.len() > 0 && single_component(value@),
        r matches Err(e) ==> (e matches WikiError::Io(m) && m@ == component_error(field@, value@)),
{
    let vc = chars_of(value);
    let fc = chars_of(field);
    if vc.len() == 0 {
        let m = concat(fc.as_slice(), chars_of(" must not be empty").as_slice());
        return Err(WikiError::Io(string_of(m.as_slice())));
    }
    let comps = components_of(vc.as_slice());
    let ghost cv = comps@.map_values(|c: Component| comp_view(c));
    let ok = comps.len() == 1 && match &comps[0] {
        Component::Normal(_) => true,
        _ => false,
    };
    proof {
        if comps@.len() == 1 {
            assert(cv[0] == comp_view(comps@[0]));
        }
    }
    if ok {
        Ok(())
    } else {
        let a = concat(chars_of("invalid ").as_slice(), fc.as_slice());
        let b = concat(a.as_slice(), chars_of(": `").as_slice());
        let c = concat(b.as_slice(), vc.as_slice());
        let d = concat(c.as_slice(), chars_of("` must be a single path component").as_slice());
        Err(WikiError::Io(string_of(d.as_slice())))
    }
}

/// The title a line carries as a level-one heading: the trimmed line must
/// start with `# `, and what follows, trimmed, must not be empty.
pub open spec fn h1_of(line: Seq<char>) -> Option<Seq<char>> {
    let t = trim(line);
    if starts_with(t, "# "@) && trim(t.skip(2)).len() > 0 {
        Some(trim(t.skip(2)))
    } else {
        None
    }
}

/// The first level-one heading among `ls`.
pub open spec fn first_h1(ls: Seq<Seq<char>>) -> Option<Seq<char>>
    decreases ls.len(),
{
    if ls.len() == 0 {
        None
    } else if h1_of(ls[0]) is Some {
        h1_of(ls[0])
    } else {
        first_h1(ls.drop_first())
    }
}

fn h1_of_line(line: &[char]) -> (r: Option<Vec<char>>)
    ensures
        match r {
            Some(v) => h1_of(line@) == Some(v@),
            None => h1_of(line@) is None,
        },
{
    let t = trim_chars(line);
    proof {
        reveal_strlit("# ");
    }
    if t.len() >= 2 && t[0] == '#' && t[1] == ' ' {
        let rest = slice_chars(t.as_slice(), 2, t.len());
        proof {
            assert(t@.subrange(2, t@.len() as int) == t@.skip(2));
            assert(t@.take(2) =~= "# "@);
        }
        let h = trim_chars(rest.as_slice());
        if h.len() > 0 {
            return Some(h);
        }
    } else {
        proof {
            if starts_with(t@, "# "@) {
                assert(t@.take(2) =~= "# "@);
                assert(t@[0] == "# "@[0] && t@[1] == "# "@[1]);
            }
        }
    }
    None
}

/// The first non-empty `# ` heading of `content`, if any.
pub fn extract_h1(content: &str) -> (r: Option<String>)
    ensures
        opt_chars(r) == first_h1(lines(content@)),
{
    let cs = chars_of(content);
    let ls = lines_of(cs.as_slice());
    let ghost lv = lines(content@);
    let mut i: usize = 0;
    proof {
        assert(lv.skip(0) == lv);
    }
    while i < ls.len()
        invariant
            i <= ls@.len(),
            lv == lines(content@),
            ls@.len() == lv.len(),
            forall|k: int| 0 <= k < ls@.len() ==> (#[trigger] ls@[k])@ == lv[k],
            first_h1(lv) == first_h1(lv.skip(i as int)),
        decreases ls@.len() - i,
    {
        proof {
            assert(lv.skip(i as int)[0] == lv[i as int]);
            assert(lv.skip(i as int).drop_first() == lv.skip(i + 1));
        }
        match h1_of_line(ls[i].as_slice()) {
            Some(h) => {
                return Some(string_of(h.as_slice()));
            },
            None => {},
        }
        i += 1;
    }
    proof {
        assert(lv.skip(i as int).len() == 0);
    }
    None
}

/// The slug a source is filed under: the slug of the trimmed title when
/// that is not empty, else the slug of the first `# ` heading when that is
/// not empty, else `untitled`.
pub open spec fn source_slug(title: Option<Seq<char>>, content: Seq<char>) -> Seq<char> {
    let from_title = match title {
        Some(t) => if trim(t).len() > 0 {
            slug_of(trim(t))
        } else {
            Seq::empty()
        },
        None => Seq::empty(),
    };
    let from_h1 = match first_h1(lines(content)) {
        Some(h) => slug_of(h),
        None => Seq::empty(),
    };
    if from_title.len() > 0 {
        from_title
    } else if from_h1.len() > 0 {
        from_h1
    } else {
        "untitled"@
    }
}

/// Derive a file slug from an optional title, falling back to the first
/// heading of `content`, then to `untitled`. Never empty.
pub fn slug_from_title_or_h1(title: Option<&str>, content: &str) -> (r: String)
    ensures
        r@ == source_slug(
            match title {
                Some(t) => Some(t@),
                None => None,
            },
            content@,
        ),
        r@.len() > 0,
{
    proof {
        reveal_strlit("untitled");
    }
    match title {
        Some(t) => {
            let tc = trim_chars(chars_of(t).as_slice());
            if tc.len() > 0 {
                let ts = string_of(tc.as_slice());
                let s = slugify(ts.as_str());
                if !s.as_str().is_empty() {
                    return s;
                }
            }
        },
        None => {},
    }
    match extract_h1(content) {
        Some(h) => {
            let s = slugify(h.as_str());
            if !s.as_str().is_empty() {
                return s;
            }
        },
        None => {},
    }
    owned("untitled")
}

} // verus!
