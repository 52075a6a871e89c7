//! Lexicographic order on strings and sorting by it.
//!
//! `str`'s `Ord` compares UTF-8 bytes, which orders strings exactly as
//! comparing their characters (code points) one by one does.

use crate::assoc::{find_key, has_key, key_pos, keys_unique, lemma_key_pos, lemma_push_key, lemma_update_value};
use crate::tag::occ;
use crate::text::{chars_of, owned, views};
use vstd::prelude::*;

verus! {

/// `a` sorts strictly before `b`.
pub open spec fn lex_lt(a: Seq<char>, b: Seq<char>) -> bool
    decreases a.len(),
{
    if a.len() == 0 {
        b.len() > 0
    } else if b.len() == 0 {
        false
    } else if a[0] != b[0] {
        a[0] < b[0]
    } else {
        lex_lt(a.drop_first(), b.drop_first())
    }
}

pub proof fn lemma_lex_irreflexive(a: Seq<char>)
    ensures
        !lex_lt(a, a),
    decreases a.len(),
{
    if a.len() > 0 {
        lemma_lex_irreflexive(a.drop_first());
    }
}

pub proof fn lemma_lex_asymmetric(a: Seq<char>, b: Seq<char>)
    ensures
        lex_lt(a, b) ==> !lex_lt(b, a),
    decreases a.len(),
{
    if a.len() > 0 && b.len() > 0 && a[0] == b[0] {
        lemma_lex_asymmetric(a.drop_first(), b.drop_first());
    }
}

pub proof fn lemma_lex_total(a: Seq<char>, b: Seq<char>)
    ensures
        a != b ==> lex_lt(a, b) || lex_lt(b, a),
    decreases a.len(),
{
    if a.len() > 0 && b.len() > 0 && a[0] == b[0] {
        lemma_lex_total(a.drop_first(), b.drop_first());
        if a.drop_first() == b.drop_first() {
            assert(a == seq![a[0]] + a.drop_first());
            assert(b == seq![b[0]] + b.drop_first());
        }
    } else if a.len() == 0 && b.len() == 0 {
        assert(a == b);
    } else if a.len() > 0 && b.len() > 0 {
    }
}

pub proof fn lemma_lex_transitive(a: Seq<char>, b: Seq<char>, c: Seq<char>)
    requires
        lex_lt(a, b),
        lex_lt(b, c),
    ensures
        lex_lt(a, c),
    decreases a.len(),
{
    if a.len() > 0 && b.len() > 0 && c.len() > 0 && a[0] == b[0] && b[0] == c[0] {
        lemma_lex_transitive(a.drop_first(), b.drop_first(), c.drop_first());
    }
}

/// Compare two strings: `lex_lt(a, b)`.
pub fn str_lt(a: &str, b: &str) -> (r: bool)
    ensures
        r == lex_lt(a@, b@),
{
    let x = chars_of(a);
    let y = chars_of(b);
    let mut i: usize = 0;
    proof {
        assert(x@.skip(0) == x@);
        assert(y@.skip(0) == y@);
    }
    while i < x.len() && i < y.len() && x[i] == y[i]
        invariant
            i <= x@.len(),
            i <= y@.len(),
            lex_lt(x@, y@) == lex_lt(x@.skip(i as int), y@.skip(i as int)),
        decreases x@.len() - i,
    {
        proof {
            assert(x@.skip(i as int).drop_first() == x@.skip(i + 1));
            assert(y@.skip(i as int).drop_first() == y@.skip(i + 1));
        }
        i += 1;
    }
    proof {
        assert(x@.skip(0) == x@);
        assert(y@.skip(0) == y@);
    }
    if i == x.len() {
        i < y.len()
    } else if i == y.len() {
        false
    } else {
        x[i] < y[i]
    }
}

/// The order of (name, count) entries: larger counts first, then names
/// ascending.
pub open spec fn entry_before(a: (Seq<char>, nat), b: (Seq<char>, nat)) -> bool {
    a.1 > b.1 || (a.1 == b.1 && lex_lt(a.0, b.0))
}

/// The view of a (name, count) entry.
pub open spec fn entry_view(e: (String, usize)) -> (Seq<char>, nat) {
    (e.0@, e.1 as nat)
}

/// Entries strictly ordered by `entry_before`.
pub open spec fn entries_sorted(s: Seq<(String, usize)>) -> bool {
    forall|i: int, j: int|
        0 <= i < j < s.len() ==> entry_before(entry_view(s[i]), entry_view(s[j]))
}

/// All names distinct.
pub open spec fn names_distinct(s: Seq<(String, usize)>) -> bool {
    forall|i: int, j: int| 0 <= i < s.len() && 0 <= j < s.len() && i != j ==> s[i].0@ != s[j].0@
}

/// The entry views of a sequence.
pub open spec fn entry_views(s: Seq<(String, usize)>) -> Seq<(Seq<char>, nat)> {
    s.map_values(|e: (String, usize)| entry_view(e))
}

/// The set of entry views.
pub open spec fn entry_set(s: Seq<(String, usize)>) -> Set<(Seq<char>, nat)> {
    entry_views(s).to_set()
}

pub proof fn lemma_entry_before_total(a: (Seq<char>, nat), b: (Seq<char>, nat))
    requires
        a.0 != b.0,
    ensures
        entry_before(a, b) || entry_before(b, a),
        !(entry_before(a, b) && entry_before(b, a)),
{
    lemma_lex_total(a.0, b.0);
    lemma_lex_asymmetric(a.0, b.0);
}

pub proof fn lemma_entry_before_transitive(
    a: (Seq<char>, nat),
    b: (Seq<char>, nat),
    c: (Seq<char>, nat),
)
    requires
        entry_before(a, b),
        entry_before(b, c),
    ensures
        entry_before(a, c),
{
    if a.1 == b.1 && b.1 == c.1 {
        lemma_lex_transitive(a.0, b.0, c.0);
    }
}

fn entry_lt(a: &(String, usize), b: &(String, usize)) -> (r: bool)
    ensures
        r == entry_before(entry_view(*a), entry_view(*b)),
{
    a.1 > b.1 || (a.1 == b.1 && str_lt(a.0.as_str(), b.0.as_str()))
}

/// Sort entries with distinct names by `entry_before`.
pub fn sort_entries(v: Vec<(String, usize)>) -> (r: Vec<(String, usize)>)
    requires
        names_distinct(v@),
    ensures
        entries_sorted(r@),
        names_distinct(r@),
        entry_set(r@) == entry_set(v@),
        r@.len() == v@.len(),
{
    let mut r: Vec<(String, usize)> = Vec::new();
    let mut v = v;
    let ghost orig = v@;
    // Move every entry out of `v` into its place in `r`.
    while v.len() > 0
        invariant
            v@.len() + r@.len() == orig.len(),
            entries_sorted(r@),
            names_distinct(r@),
            names_distinct(v@ + r@),
            entry_set(v@ + r@) == entry_set(orig),
            (v@ + r@).len() == orig.len(),
        decreases v@.len(),
    {
        let ghost before_v = v@;
        let ghost before_r = r@;
        let e = v.pop().unwrap();
        proof {
            assert(before_v == v@.push(e));
            assert forall|k: int| 0 <= k < r@.len() implies r@[k].0@ != e.0@ by {
                assert((before_v + before_r)[before_v.len() - 1] == e);
                assert((before_v + before_r)[before_v.len() + k] == r@[k]);
            }
        }
        // First position whose entry does not come before `e`.
        let mut p: usize = 0;
        while p < r.len() && entry_lt(&r[p], &e)
            invariant
                p <= r@.len(),
                r@ == before_r,
                forall|k: int| 0 <= k < p ==> entry_before(entry_view(r@[k]), entry_view(e)),
            decreases r@.len() - p,
        {
            p += 1;
        }
        proof {
            if p < r@.len() {
                lemma_entry_before_total(entry_view(r@[p as int]), entry_view(e));
                assert(entry_before(entry_view(e), entry_view(r@[p as int])));
                assert forall|k: int| p <= k < r@.len() implies entry_before(
                    entry_view(e),
                    entry_view(r@[k]),
                ) by {
                    if k > p {
                        lemma_entry_before_transitive(
                            entry_view(e),
                            entry_view(r@[p as int]),
                            entry_view(r@[k]),
                        );
                    }
                }
            }
        }
        r.insert(p, e);
        proof {
            let nr = r@;
            assert(nr == before_r.insert(p as int, e));
            assert forall|a: int, b: int| 0 <= a < b < nr.len() implies entry_before(
                entry_view(nr[a]),
                entry_view(nr[b]),
            ) by {
                if a < p && b < p {
                } else if a < p && b == p {
                } else if a < p && b > p {
                    assert(nr[b] == before_r[b - 1]);
                } else if a == p {
                    assert(nr[b] == before_r[b - 1]);
                } else {
                    assert(nr[a] == before_r[a - 1]);
                    assert(nr[b] == before_r[b - 1]);
                }
            }
            assert(v@ + nr =~= (v@ + before_r).insert(v@.len() + p, e));
            let old_all = before_v + before_r;
            let new_all = v@ + nr;
            assert forall|a: int, b: int|
                0 <= a < new_all.len() && 0 <= b < new_all.len() && a != b implies new_all[a].0@
                != new_all[b].0@ by {
                let q = v@.len() + p;
                let ma = if a < q {
                    if a < v@.len() {
                        a
                    } else {
                        a + 1
                    }
                } else if a == q {
                    v@.len() as int
                } else {
                    a
                };
                let mb = if b < q {
                    if b < v@.len() {
                        b
                    } else {
                        b + 1
                    }
                } else if b == q {
                    v@.len() as int
                } else {
                    b
                };
                assert(new_all[a] == old_all[ma]);
                assert(new_all[b] == old_all[mb]);
            }
            assert forall|a: int, b: int|
                0 <= a < nr.len() && 0 <= b < nr.len() && a != b implies nr[a].0@ != nr[b].0@ by {
                assert(new_all[v@.len() + a] == nr[a]);
                assert(new_all[v@.len() + b] == nr[b]);
            }
            assert(entry_set(new_all) =~= entry_set(old_all)) by {
                let q = v@.len() + p;
                assert forall|x| entry_set(new_all).contains(x) implies entry_set(
                    old_all,
                ).contains(x) by {
                    assert(entry_views(new_all).contains(x));
                    let k = choose|k: int|
                        0 <= k < entry_views(new_all).len() && #[trigger] entry_views(
                            new_all,
                        )[k] == x;
                    let m = if k < q {
                        if k < v@.len() {
                            k
                        } else {
                            k + 1
                        }
                    } else if k == q {
                        v@.len() as int
                    } else {
                        k
                    };
                    assert(new_all[k] == old_all[m]);
                    assert(entry_views(old_all)[m] == x);
                    assert(entry_views(old_all).contains(x));
                }
                assert forall|x| entry_set(old_all).contains(x) implies entry_set(
                    new_all,
                ).contains(x) by {
                    assert(entry_views(old_all).contains(x));
                    let m = choose|m: int|
                        0 <= m < entry_views(old_all).len() && #[trigger] entry_views(
                            old_all,
                        )[m] == x;
                    let k = if m < v@.len() {
                        m
                    } else if m == v@.len() {
                        q
                    } else if m - 1 < q {
                        m - 1
                    } else {
                        m
                    };
                    assert(new_all[k] == old_all[m]);
                    assert(entry_views(new_all)[k] == x);
                    assert(entry_views(new_all).contains(x));
                }
            }
        }
    }
    proof {
        assert(v@ + r@ =~= r@);
    }
    r
}


// ───────────────────────── totals ─────────────────────────

/// The sum of the counts of some entries.
pub open spec fn count_total(s: Seq<(Seq<char>, nat)>) -> nat
    decreases s.len(),
{
    if s.len() == 0 {
        0
    } else {
        count_total(s.drop_last()) + s.last().1
    }
}

proof fn lemma_total_update(s: Seq<(Seq<char>, nat)>, j: int, x: (Seq<char>, nat))
    requires
        0 <= j < s.len(),
    ensures
        count_total(s.update(j, x)) + s[j].1 == count_total(s) + x.1,
    decreases s.len(),
{
    if j == s.len() - 1 {
        assert(s.update(j, x).drop_last() =~= s.drop_last());
    } else {
        lemma_total_update(s.drop_last(), j, x);
        assert(s.update(j, x).drop_last() =~= s.drop_last().update(j, x));
    }
}

proof fn lemma_total_remove(s: Seq<(Seq<char>, nat)>, k: int)
    requires
        0 <= k < s.len(),
    ensures
        count_total(s) == count_total(s.remove(k)) + s[k].1,
    decreases s.len(),
{
    s.remove_ensures(k);
    if k == s.len() - 1 {
        assert(s.remove(k) =~= s.drop_last());
    } else {
        lemma_total_remove(s.drop_last(), k);
        s.drop_last().remove_ensures(k);
        assert(s.remove(k).drop_last() =~= s.drop_last().remove(k));
        assert(s.remove(k).last() == s.last());
    }
}

/// Two duplicate-free lists of the same entries have the same total.
pub proof fn lemma_total_same_set(a: Seq<(Seq<char>, nat)>, b: Seq<(Seq<char>, nat)>)
    requires
        a.no_duplicates(),
        b.no_duplicates(),
        a.to_set() == b.to_set(),
    ensures
        count_total(a) == count_total(b),
    decreases a.len(),
{
    if a.len() == 0 {
        if b.len() > 0 {
            assert(b.to_set().contains(b[0]));
            assert(a.to_set().contains(b[0]));
        }
    } else {
        let x = a.last();
        assert(a.to_set().contains(x));
        assert(b.to_set().contains(x));
        let k = choose|k: int| 0 <= k < b.len() && b[k] == x;
        let a2 = a.drop_last();
        let b2 = b.remove(k);
        b.remove_ensures(k);
        assert(a2.no_duplicates());
        assert(b2.no_duplicates()) by {
            assert forall|i: int, j: int| 0 <= i < b2.len() && 0 <= j < b2.len() && i != j implies b2[i]
                != b2[j] by {
                let bi = if i < k {
                    i
                } else {
                    i + 1
                };
                let bj = if j < k {
                    j
                } else {
                    j + 1
                };
                assert(b2[i] == b[bi]);
                assert(b2[j] == b[bj]);
            }
        }
        assert(a2.to_set() =~= b2.to_set()) by {
            assert forall|y: (Seq<char>, nat)| a2.contains(y) implies b2.contains(y) by {
                let i = choose|i: int| 0 <= i < a2.len() && a2[i] == y;
                assert(a[i] == y);
                assert(y != x);
                assert(a.to_set().contains(y));
                assert(b.to_set().contains(y));
                let j = choose|j: int| 0 <= j < b.len() && b[j] == y;
                assert(j != k);
                if j < k {
                    assert(b2[j] == y);
                } else {
                    assert(b2[j - 1] == y);
                }
            }
            assert forall|y: (Seq<char>, nat)| b2.contains(y) implies a2.contains(y) by {
                let j = choose|j: int| 0 <= j < b2.len() && b2[j] == y;
                let bj = if j < k {
                    j
                } else {
                    j + 1
                };
                assert(b[bj] == y);
                assert(y != x);
                assert(b.to_set().contains(y));
                assert(a.to_set().contains(y));
                let i = choose|i: int| 0 <= i < a.len() && a[i] == y;
                assert(i != a.len() - 1);
                assert(a2[i] == y);
            }
        }
        lemma_total_same_set(a2, b2);
        lemma_total_remove(b, k);
    }
}

/// Entries with distinct names are distinct.
pub proof fn lemma_distinct_names_no_dups(s: Seq<(String, usize)>)
    requires
        names_distinct(s),
    ensures
        entry_views(s).no_duplicates(),
{
    assert forall|i: int, j: int|
        0 <= i < entry_views(s).len() && 0 <= j < entry_views(s).len() && i != j implies entry_views(
        s,
    )[i] != entry_views(s)[j] by {
        assert(s[i].0@ != s[j].0@);
    }
}

// ───────────────────────── tallies ─────────────────────────

/// `e` is a distinct string of `keys` paired with its number of occurrences.
pub open spec fn tally_has(keys: Seq<Seq<char>>, e: (Seq<char>, nat)) -> bool {
    occ(keys, e.0) > 0 && e.1 == occ(keys, e.0)
}

pub proof fn lemma_occ_le(s: Seq<Seq<char>>, t: Seq<char>)
    ensures
        occ(s, t) <= s.len(),
    decreases s.len(),
{
    if s.len() > 0 {
        lemma_occ_le(s.drop_last(), t);
    }
}

/// Counting by keys: with keys stored once each and every key's count
/// read at its first position, the entries are exactly the tally.
proof fn lemma_tally_entries(pairs: Seq<(String, usize)>, keys: Seq<Seq<char>>)
    requires
        keys_unique(pairs),
        forall|t: Seq<char>| #[trigger] has_key(pairs, t) <==> occ(keys, t) > 0,
        forall|t: Seq<char>|
            #[trigger] has_key(pairs, t) ==> pairs[key_pos(pairs, t)].1 == occ(keys, t),
    ensures
        forall|e: (Seq<char>, nat)| entry_set(pairs).contains(e) <==> tally_has(keys, e),
{
    assert forall|e: (Seq<char>, nat)| entry_set(pairs).contains(e) <==> tally_has(keys, e) by {
        if entry_set(pairs).contains(e) {
            let k = choose|k: int| 0 <= k < entry_views(pairs).len() && entry_views(pairs)[k] == e;
            assert(entry_view(pairs[k]) == e);
            assert(has_key(pairs, e.0));
            lemma_key_pos(pairs, e.0);
            let p = key_pos(pairs, e.0);
            assert(p == k) by {
                if p != k {
                    assert(pairs[p].0@ != pairs[k].0@);
                }
            }
        }
        if tally_has(keys, e) {
            assert(has_key(pairs, e.0));
            lemma_key_pos(pairs, e.0);
            let p = key_pos(pairs, e.0);
            assert(entry_views(pairs)[p] == e);
        }
    }
}

/// Each distinct string of `keys`, in order of first appearance, with the
/// number of times it occurs.
pub fn tally(keys: &Vec<String>) -> (r: Vec<(String, usize)>)
    ensures
        names_distinct(r@),
        count_total(entry_views(r@)) == keys@.len(),
        forall|e: (Seq<char>, nat)| entry_set(r@).contains(e) <==> tally_has(views(keys@), e),
{
    let ghost ks = views(keys@);
    let mut pairs: Vec<(String, usize)> = Vec::new();
    let mut i: usize = 0;
    while i < keys.len()
        invariant
            i <= keys@.len(),
            ks == views(keys@),
            keys_unique(pairs@),
            count_total(entry_views(pairs@)) == i,
            forall|t: Seq<char>| #[trigger] has_key(pairs@, t) <==> occ(ks.take(i as int), t) > 0,
            forall|t: Seq<char>|
                #[trigger] has_key(pairs@, t) ==> pairs@[key_pos(pairs@, t)].1 == occ(
                    ks.take(i as int),
                    t,
                ),
        decreases keys@.len() - i,
    {
        let ghost before = pairs@;
        proof {
            assert(ks.take(i + 1).drop_last() == ks.take(i as int));
            assert(ks.take(i + 1).last() == keys@[i as int]@);
            lemma_occ_le(ks.take(i as int), keys@[i as int]@);
        }
        match find_key(&pairs, keys[i].as_str()) {
            Some(p) => {
                let c = pairs[p].1;
                let name = owned(pairs[p].0.as_str());
                pairs.set(p, (name, c + 1));
                proof {
                    assert(entry_views(pairs@) =~= entry_views(before).update(
                        p as int,
                        (name@, (c + 1) as nat),
                    ));
                    lemma_total_update(entry_views(before), p as int, (name@, (c + 1) as nat));
                    lemma_update_value(before, p as int, (name, (c + 1) as usize));
                    assert forall|t: Seq<char>| #[trigger] has_key(pairs@, t) implies pairs@[key_pos(
                        pairs@,
                        t,
                    )].1 == occ(ks.take(i + 1), t) by {
                        lemma_key_pos(before, t);
                        lemma_key_pos(before, keys@[i as int]@);
                        if t == keys@[i as int]@ {
                        } else {
                            assert(key_pos(pairs@, t) != p);
                        }
                    }
                }
            },
            None => {
                let e = (owned(keys[i].as_str()), 1usize);
                pairs.push(e);
                proof {
                    assert(entry_views(pairs@).drop_last() =~= entry_views(before));
                    lemma_push_key(before, e);
                    assert forall|t: Seq<char>| #[trigger] has_key(pairs@, t) implies pairs@[key_pos(
                        pairs@,
                        t,
                    )].1 == occ(ks.take(i + 1), t) by {
                        if t == keys@[i as int]@ {
                        } else {
                            assert(has_key(before, t));
                            lemma_key_pos(before, t);
                        }
                    }
                }
            },
        }
        i += 1;
    }
    proof {
        assert(ks.take(i as int) == ks);
        lemma_tally_entries(pairs@, ks);
    }
    pairs
}

} // verus!
