//! Slash-separated relative paths, with the component rules of
//! `std::path::Path` on Unix.

use crate::text::{chars_of, concat, slice_chars, string_of, words};
use vstd::prelude::*;

verus! {

/// A path component, as `std::path::Component` names them.
pub enum Comp {
    RootDir,
    CurDir,
    ParentDir,
    Normal(Seq<char>),
}

/// The component named by one non-empty segment between slashes.
pub open spec fn seg_comp(seg: Seq<char>) -> Comp {
    if seg == "."@ {
        Comp::CurDir
    } else if seg == ".."@ {
        Comp::ParentDir
    } else {
        Comp::Normal(seg)
    }
}

/// The components of the segments, with `.` segments dropped.
pub open spec fn seg_comps(segs: Seq<Seq<char>>) -> Seq<Comp> {
    segs.filter(|g: Seq<char>| g != "."@).map_values(|g: Seq<char>| seg_comp(g))
}

/// `Path::components` on Unix: a leading `/` gives `RootDir`; repeated
/// and trailing separators are ignored; `.` segments are dropped, except
/// that a relative path whose first segment is `.` starts with `CurDir`;
/// `..` gives `ParentDir`; every other segment is `Normal`.
pub open spec fn components(s: Seq<char>) -> Seq<Comp> {
    let segs = words(s, '/');
    if s.len() > 0 && s[0] == '/' {
        seq![Comp::RootDir] + seg_comps(segs)
    } else if segs.len() > 0 && segs[0] == "."@ && (s.len() == 1 || s[1] == '/') {
        seq![Comp::CurDir] + seg_comps(segs.drop_first())
    } else {
        seg_comps(segs)
    }
}

/// `Path::file_name`: the last component when it is a normal one.
pub open spec fn file_name(s: Seq<char>) -> Option<Seq<char>> {
    let c = components(s);
    if c.len() > 0 && c.last() is Normal {
        Some(c.last()->Normal_0)
    } else {
        None
    }
}

/// Index of the last `.` in `s`, or -1.
pub open spec fn last_dot(s: Seq<char>) -> int
    decreases s.len(),
{
    if s.len() == 0 {
        -1
    } else if s.last() == '.' {
        s.len() - 1
    } else {
        last_dot(s.drop_last())
    }
}

/// `Path::file_stem`: the file name without its last extension. A name
/// with no `.` after its first character is its own stem.
pub open spec fn file_stem(s: Seq<char>) -> Option<Seq<char>> {
    match file_name(s) {
        Some(name) => {
            let d = last_dot(name);
            if d <= 0 {
                Some(name)
            } else {
                Some(name.take(d))
            }
        },
        None => None,
    }
}

/// `Path::join` (`PathBuf::push`): an absolute `p` replaces `base`;
/// otherwise `p` is appended, with a `/` between them unless `base` is
/// empty or already ends in one.
pub open spec fn path_join(base: Seq<char>, p: Seq<char>) -> Seq<char> {
    if p.len() > 0 && p[0] == '/' {
        p
    } else if base.len() == 0 || base.last() == '/' {
        base + p
    } else {
        base + "/"@ + p
    }
}

pub proof fn lemma_last_dot(s: Seq<char>)
    ensures
        -1 <= last_dot(s) < s.len(),
        last_dot(s) >= 0 ==> s[last_dot(s)] == '.',
        forall|j: int| last_dot(s) < j < s.len() ==> s[j] != '.',
    decreases s.len(),
{
    if s.len() > 0 && s.last() != '.' {
        lemma_last_dot(s.drop_last());
        assert forall|j: int| last_dot(s) < j < s.len() implies s[j] != '.' by {
            if j < s.len() - 1 {
                assert(s[j] == s.drop_last()[j]);
            }
        }
    }
}

/// Exec form of a component.
pub enum Component {
    RootDir,
    CurDir,
    ParentDir,
    Normal(Vec<char>),
}

/// The spec component an exec component stands for.
pub open spec fn comp_view(c: Component) -> Comp {
    match c {
        Component::RootDir => Comp::RootDir,
        Component::CurDir => Comp::CurDir,
        Component::ParentDir => Comp::ParentDir,
        Component::Normal(v) => Comp::Normal(v@),
    }
}

fn is_dot(s: &[char]) -> (r: bool)
    ensures
        r == (s@ == "."@),
{
    proof {
        reveal_strlit(".");
    }
    let r = s.len() == 1 && s[0] == '.';
    proof {
        if s@.len() == 1 && s@[0] == '.' {
            assert(s@ =~= "."@);
        }
    }
    r
}

fn is_dotdot(s: &[char]) -> (r: bool)
    ensures
        r == (s@ == ".."@),
{
    proof {
        reveal_strlit("..");
    }
    let r = s.len() == 2 && s[0] == '.' && s[1] == '.';
    proof {
        if s@.len() == 2 && s@[0] == '.' && s@[1] == '.' {
            assert(s@ =~= ".."@);
        }
    }
    r
}

/// Split a path into its components.
pub fn components_of(s: &[char]) -> (r: Vec<Component>)
    ensures
        r@.map_values(|c: Component| comp_view(c)) == components(s@),
{
    let segs = crate::text::words_of(s, '/');
    let ghost sv = segs@.map_values(|w: Vec<char>| w@);
    let mut r: Vec<Component> = Vec::new();
    let mut start: usize = 0;
    let absolute = s.len() > 0 && s[0] == '/';
    proof {
        reveal_strlit(".");
    }
    if absolute {
        r.push(Component::RootDir);
    } else if segs.len() > 0 && is_dot(segs[0].as_slice()) && (s.len() == 1 || (s.len() > 1 && s[1] == '/')) {
        r.push(Component::CurDir);
        start = 1;
    }
    let ghost head = r@.map_values(|c: Component| comp_view(c));
    let ghost rest = sv.skip(start as int);
    let mut i = start;
    proof {
        assert(rest.take(0).filter(|g: Seq<char>| g != "."@) == Seq::<Seq<char>>::empty());
        assert(r@.map_values(|c: Component| comp_view(c)) =~= head + seg_comps(rest.take(0)));
    }
    while i < segs.len()
        invariant
            start <= i <= segs@.len(),
            sv == segs@.map_values(|w: Vec<char>| w@),
            rest == sv.skip(start as int),
            r@.map_values(|c: Component| comp_view(c)) == head + seg_comps(
                rest.take(i - start),
            ),
        decreases segs@.len() - i,
    {
        let ghost k = i - start;
        proof {
            assert(rest.take(k + 1).drop_last() == rest.take(k));
            assert(rest.take(k + 1).last() == sv[i as int]);
            reveal_with_fuel(Seq::filter, 1);
        }
        let seg = segs[i].as_slice();
        let ghost before = r@.map_values(|c: Component| comp_view(c));
        if is_dot(seg) {
        } else if is_dotdot(seg) {
            r.push(Component::ParentDir);
        } else {
            let v = slice_chars(seg, 0, seg.len());
            proof {
                assert(seg@.subrange(0, seg@.len() as int) == seg@);
            }
            r.push(Component::Normal(v));
        }
        proof {
            assert(rest.take(k + 1).filter(|g: Seq<char>| g != "."@) == if sv[i as int] == "."@ {
                rest.take(k).filter(|g: Seq<char>| g != "."@)
            } else {
                rest.take(k).filter(|g: Seq<char>| g != "."@).push(sv[i as int])
            });
            if sv[i as int] != "."@ {
                assert(seg_comps(rest.take(k + 1)) =~= seg_comps(rest.take(k)).push(
                    seg_comp(sv[i as int]),
                ));
                assert(r@.map_values(|c: Component| comp_view(c)) =~= before.push(
                    seg_comp(sv[i as int]),
                ));
            } else {
                assert(seg_comps(rest.take(k + 1)) =~= seg_comps(rest.take(k)));
            }
        }
        i += 1;
    }
    proof {
        assert(rest.take(i - start) == rest);
        if !absolute && start == 1 {
            assert(rest == sv.drop_first());
        } else {
            assert(rest == sv);
        }
    }
    r
}

/// The file name of a path, if it ends in a normal component.
pub fn file_name_of(s: &[char]) -> (r: Option<Vec<char>>)
    ensures
        match r {
            Some(v) => file_name(s@) == Some(v@),
            None => file_name(s@) is None,
        },
{
    let comps = components_of(s);
    if comps.len() == 0 {
        return None;
    }
    let ghost cv = comps@.map_values(|c: Component| comp_view(c));
    match &comps[comps.len() - 1] {
        Component::Normal(v) => {
            let out = slice_chars(v.as_slice(), 0, v.len());
            proof {
                assert(v@.subrange(0, v@.len() as int) == v@);
                assert(cv.last() == comp_view(comps@[comps@.len() - 1]));
            }
            Some(out)
        },
        _ => {
            proof {
                assert(cv.last() == comp_view(comps@[comps@.len() - 1]));
            }
            None
        },
    }
}

/// The file stem of a path (`Path::file_stem`).
pub fn file_stem_of(s: &[char]) -> (r: Option<Vec<char>>)
    ensures
        match r {
            Some(v) => file_stem(s@) == Some(v@),
            None => file_stem(s@) is None,
        },
{
    match file_name_of(s) {
        None => None,
        Some(name) => {
            proof {
                lemma_last_dot(name@);
            }
            let mut d = name.len();
            while d > 0 && name[d - 1] != '.'
                invariant
                    d <= name@.len(),
                    forall|j: int| d <= j < name@.len() ==> name@[j] != '.',
                    -1 <= last_dot(name@) < name@.len(),
                    last_dot(name@) >= 0 ==> name@[last_dot(name@)] == '.',
                    forall|j: int| last_dot(name@) < j < name@.len() ==> name@[j] != '.',
                decreases d,
            {
                d -= 1;
            }
            // `d - 1` is the last dot, or there is none (`d == 0`).
            proof {
                if d > 0 {
                    assert(last_dot(name@) == d - 1);
                } else {
                    assert(last_dot(name@) == -1) by {
                        if last_dot(name@) >= 0 {
                            assert(name@[last_dot(name@)] == '.');
                        }
                    }
                }
            }
            if d <= 1 {
                Some(name)
            } else {
                Some(slice_chars(name.as_slice(), 0, d - 1))
            }
        },
    }
}

/// Join two paths (`Path::join`).
pub fn join_path(base: &str, p: &str) -> (r: String)
    ensures
        r@ == path_join(base@, p@),
{
    let b = chars_of(base);
    let q = chars_of(p);
    if q.len() > 0 && q[0] == '/' {
        return string_of(q.as_slice());
    }
    if b.len() == 0 || b[b.len() - 1] == '/' {
        let j = concat(b.as_slice(), q.as_slice());
        return string_of(j.as_slice());
    }
    let slash = chars_of("/");
    let a = concat(b.as_slice(), slash.as_slice());
    let j = concat(a.as_slice(), q.as_slice());
    string_of(j.as_slice())
}

/// What `Path::strip_prefix` leaves of `p` after the whole components of
/// `base` (`None` when `base` is not a component-wise prefix).
pub uninterp spec fn strip_prefix(p: Seq<char>, base: Seq<char>) -> Option<Seq<char>>;

/// `Path::new(p).strip_prefix(base)`, the remainder turned into a string.
/// The contract names the result.
#[verifier::external_body]
pub(crate) fn path_strip_prefix(p: &str, base: &str) -> (r: Option<String>)
    ensures
        match r {
            Some(s) => strip_prefix(p@, base@) == Some(s@),
            None => strip_prefix(p@, base@) is None,
        },
{
    std::path::Path::new(p).strip_prefix(base).ok().map(|r| r.to_string_lossy().into_owned())
}

} // verus!
