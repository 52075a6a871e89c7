//! Small maps keyed by strings, kept as vectors of pairs in insertion
//! order. A lookup finds the first pair with the key.

use crate::text::str_eq;
use vstd::prelude::*;

verus! {

/// Position of the first pair whose key is `key`, or `pairs.len()`.
pub open spec fn key_pos<V>(pairs: Seq<(String, V)>, key: Seq<char>) -> int
    decreases pairs.len(),
{
    if pairs.len() == 0 {
        0
    } else if pairs[0].0@ == key {
        0
    } else {
        1 + key_pos(pairs.drop_first(), key)
    }
}

/// `key` is bound in `pairs`.
pub open spec fn has_key<V>(pairs: Seq<(String, V)>, key: Seq<char>) -> bool {
    exists|i: int| 0 <= i < pairs.len() && #[trigger] pairs[i].0@ == key
}

/// No key occurs twice.
pub open spec fn keys_unique<V>(pairs: Seq<(String, V)>) -> bool {
    forall|i: int, j: int|
        0 <= i < pairs.len() && 0 <= j < pairs.len() && i != j ==> pairs[i].0@ != pairs[j].0@
}

pub proof fn lemma_key_pos<V>(pairs: Seq<(String, V)>, key: Seq<char>)
    ensures
        0 <= key_pos(pairs, key) <= pairs.len(),
        key_pos(pairs, key) < pairs.len() ==> pairs[key_pos(pairs, key)].0@ == key,
        forall|j: int| 0 <= j < key_pos(pairs, key) ==> pairs[j].0@ != key,
        key_pos(pairs, key) < pairs.len() <==> has_key(pairs, key),
    decreases pairs.len(),
{
    if pairs.len() > 0 && pairs[0].0@ != key {
        lemma_key_pos(pairs.drop_first(), key);
        assert forall|j: int| 0 <= j < key_pos(pairs, key) implies pairs[j].0@ != key by {
            if j > 0 {
                assert(pairs[j] == pairs.drop_first()[j - 1]);
            }
        }
        if has_key(pairs, key) {
            let i = choose|i: int| 0 <= i < pairs.len() && #[trigger] pairs[i].0@ == key;
            assert(pairs.drop_first()[i - 1].0@ == key);
        }
        if has_key(pairs.drop_first(), key) {
            let i = choose|i: int|
                0 <= i < pairs.drop_first().len() && #[trigger] pairs.drop_first()[i].0@ == key;
            assert(pairs[i + 1].0@ == key);
        }
    } else if pairs.len() > 0 {
        assert(pairs[0].0@ == key);
    }
}

/// Find the position of the first pair whose key is `key`.
pub fn find_key<V>(pairs: &Vec<(String, V)>, key: &str) -> (r: Option<usize>)
    ensures
        r matches Some(i) ==> i == key_pos(pairs@, key@) && i < pairs@.len(),
        r is None <==> key_pos(pairs@, key@) == pairs@.len(),
        r is None <==> !has_key(pairs@, key@),
{
    proof {
        lemma_key_pos(pairs@, key@);
    }
    let mut i: usize = 0;
    while i < pairs.len()
        invariant
            i <= pairs@.len(),
            forall|j: int| 0 <= j < i ==> pairs@[j].0@ != key@,
            0 <= key_pos(pairs@, key@) <= pairs@.len(),
            key_pos(pairs@, key@) < pairs@.len() ==> pairs@[key_pos(pairs@, key@)].0@ == key@,
            forall|j: int| 0 <= j < key_pos(pairs@, key@) ==> pairs@[j].0@ != key@,
        decreases pairs@.len() - i,
    {
        if str_eq(pairs[i].0.as_str(), key) {
            return Some(i);
        }
        i += 1;
    }
    None
}

/// Replacing the value of an existing pair keeps every key where it was.
pub proof fn lemma_update_value<V>(old: Seq<(String, V)>, p: int, e: (String, V))
    requires
        0 <= p < old.len(),
        e.0@ == old[p].0@,
    ensures
        forall|t: Seq<char>| #[trigger] has_key(old.update(p, e), t) == has_key(old, t),
        forall|t: Seq<char>| #[trigger] key_pos(old.update(p, e), t) == key_pos(old, t),
        keys_unique(old) ==> keys_unique(old.update(p, e)),
{
    let new = old.update(p, e);
    assert forall|t: Seq<char>| #[trigger] has_key(new, t) == has_key(old, t) by {
        if has_key(new, t) {
            let k = choose|k: int| 0 <= k < new.len() && #[trigger] new[k].0@ == t;
            assert(old[k].0@ == t);
        }
        if has_key(old, t) {
            let k = choose|k: int| 0 <= k < old.len() && #[trigger] old[k].0@ == t;
            assert(new[k].0@ == t);
        }
    }
    assert forall|t: Seq<char>| #[trigger] key_pos(new, t) == key_pos(old, t) by {
        lemma_key_pos(new, t);
        lemma_key_pos(old, t);
        let a = key_pos(new, t);
        let b = key_pos(old, t);
        if a < b {
            assert(new[a].0@ == old[a].0@);
        } else if b < a {
            assert(new[b].0@ == old[b].0@);
        }
    }
    if keys_unique(old) {
        assert forall|a: int, b: int|
            0 <= a < new.len() && 0 <= b < new.len() && a != b implies new[a].0@ != new[b].0@ by {
            assert(new[a].0@ == old[a].0@);
            assert(new[b].0@ == old[b].0@);
        }
    }
}

/// Appending a pair with a new key binds that key at the end and keeps
/// every other key where it was.
pub proof fn lemma_push_key<V>(old: Seq<(String, V)>, e: (String, V))
    requires
        !has_key(old, e.0@),
    ensures
        forall|t: Seq<char>| #[trigger] has_key(old.push(e), t) == (has_key(old, t) || t == e.0@),
        forall|t: Seq<char>|
            t != e.0@ && has_key(old, t) ==> #[trigger] key_pos(old.push(e), t) == key_pos(old, t),
        key_pos(old.push(e), e.0@) == old.len(),
        keys_unique(old) ==> keys_unique(old.push(e)),
{
    let new = old.push(e);
    assert forall|t: Seq<char>| #[trigger] has_key(new, t) == (has_key(old, t) || t == e.0@) by {
        if has_key(new, t) {
            let k = choose|k: int| 0 <= k < new.len() && #[trigger] new[k].0@ == t;
            if k < old.len() {
                assert(old[k].0@ == t);
            }
        }
        if has_key(old, t) {
            let k = choose|k: int| 0 <= k < old.len() && #[trigger] old[k].0@ == t;
            assert(new[k].0@ == t);
        }
        if t == e.0@ {
            assert(new[old.len() as int].0@ == t);
        }
    }
    assert forall|t: Seq<char>| t != e.0@ && has_key(old, t) implies #[trigger] key_pos(new, t)
        == key_pos(old, t) by {
        lemma_key_pos(new, t);
        lemma_key_pos(old, t);
        let a = key_pos(new, t);
        let b = key_pos(old, t);
        if a < b {
            assert(new[a] == old[a]);
        } else if b < a {
            assert(new[b] == old[b]);
        }
    }
    lemma_key_pos(new, e.0@);
    lemma_key_pos(old, e.0@);
    assert(key_pos(new, e.0@) == old.len()) by {
        let a = key_pos(new, e.0@);
        if a < old.len() {
            assert(old[a].0@ == e.0@);
        }
        assert(new[old.len() as int].0@ == e.0@);
    }
    if keys_unique(old) {
        assert forall|a: int, b: int|
            0 <= a < new.len() && 0 <= b < new.len() && a != b implies new[a].0@ != new[b].0@ by {
            if a < old.len() && b < old.len() {
                assert(new[a] == old[a]);
                assert(new[b] == old[b]);
            } else if a < old.len() {
                assert(new[a] == old[a]);
                assert(old[a].0@ != e.0@);
            } else {
                assert(new[b] == old[b]);
                assert(old[b].0@ != e.0@);
            }
        }
    }
}

} // verus!
