//! Lists of key-value entries read as maps: each entry, in order, sets its key,
//! so a later entry for a key overrides an earlier one.
use vstd::prelude::*;

use crate::text::text_eq;

verus! {

pub open spec fn entries_map<K, V>(s: Seq<(K, V)>) -> Map<K, V>
    decreases s.len(),
{
    if s.len() == 0 {
        Map::empty()
    } else {
        entries_map(s.drop_last()).insert(s.last().0, s.last().1)
    }
}

pub open spec fn lookup<K, V>(m: Map<K, V>, k: K) -> Option<V> {
    if m.dom().contains(k) {
        Some(m[k])
    } else {
        None
    }
}

pub open spec fn keys_unique<K, V>(s: Seq<(K, V)>) -> bool {
    forall|i: int, j: int| 0 <= i < j < s.len() ==> (#[trigger] s[i]).0 != (#[trigger] s[j]).0
}

pub proof fn lemma_entries_map_absent<K, V>(s: Seq<(K, V)>, k: K)
    requires
        forall|j: int| 0 <= j < s.len() ==> (#[trigger] s[j]).0 != k,
    ensures
        !entries_map(s).dom().contains(k),
    decreases s.len(),
{
    if s.len() > 0 {
        assert(s.last() == s[s.len() - 1]);
        lemma_entries_map_absent(s.drop_last(), k);
    }
}

pub proof fn lemma_entries_map_last<K, V>(s: Seq<(K, V)>, i: int, k: K)
    requires
        0 <= i < s.len(),
        s[i].0 == k,
        forall|j: int| i < j < s.len() ==> (#[trigger] s[j]).0 != k,
    ensures
        entries_map(s).dom().contains(k),
        entries_map(s)[k] == s[i].1,
    decreases s.len(),
{
    if i < s.len() - 1 {
        assert(s.last() == s[s.len() - 1]);
        lemma_entries_map_last(s.drop_last(), i, k);
    }
}

pub proof fn lemma_entries_map_finite<K, V>(s: Seq<(K, V)>)
    ensures
        entries_map(s).dom().finite(),
    decreases s.len(),
{
    if s.len() > 0 {
        lemma_entries_map_finite(s.drop_last());
    }
}

/// Every key of the map is the key of some entry, and its value that of the last one.
pub proof fn lemma_entries_map_contains<K, V>(s: Seq<(K, V)>, k: K)
    requires
        entries_map(s).dom().contains(k),
    ensures
        exists|i: int| 0 <= i < s.len() && (#[trigger] s[i]).0 == k && entries_map(s)[k] == s[i].1,
    decreases s.len(),
{
    if s.len() > 0 {
        if s.last().0 == k {
            assert(s[s.len() - 1].0 == k);
        } else {
            lemma_entries_map_contains(s.drop_last(), k);
            let i = choose|i: int| 0 <= i < s.drop_last().len() && (#[trigger] s.drop_last()[i]).0 == k
                && entries_map(s.drop_last())[k] == s.drop_last()[i].1;
            assert(s[i] == s.drop_last()[i]);
        }
    }
}

/// With keys unique, the map gives each entry's key that entry's value.
pub proof fn lemma_entries_map_contains_at<K, V>(s: Seq<(K, V)>, i: int)
    requires
        keys_unique(s),
        0 <= i < s.len(),
    ensures
        entries_map(s).dom().contains(s[i].0),
        entries_map(s)[s[i].0] == s[i].1,
{
    assert forall|j: int| i < j < s.len() implies (#[trigger] s[j]).0 != s[i].0 by {
        assert(s[i].0 != s[j].0);
    }
    lemma_entries_map_last(s, i, s[i].0);
}

/// With keys unique, setting the entry of a key in place sets it in the map.
pub proof fn lemma_entries_map_update<K, V>(s: Seq<(K, V)>, idx: int, v: V)
    requires
        keys_unique(s),
        0 <= idx < s.len(),
    ensures
        entries_map(s.update(idx, (s[idx].0, v))) == entries_map(s).insert(s[idx].0, v),
        keys_unique(s.update(idx, (s[idx].0, v))),
    decreases s.len(),
{
    let k = s[idx].0;
    let u = s.update(idx, (k, v));
    assert forall|i: int, j: int| 0 <= i < j < u.len() implies (#[trigger] u[i]).0 != (#[trigger] u[j]).0 by {
        assert(s[i].0 != s[j].0);
    }
    if idx == s.len() - 1 {
        assert(u.drop_last() =~= s.drop_last());
        assert(entries_map(u) =~= entries_map(s).insert(k, v)) by {
            assert(entries_map(s) == entries_map(s.drop_last()).insert(k, s[idx].1));
        }
    } else {
        let d = s.drop_last();
        assert forall|i: int, j: int| 0 <= i < j < d.len() implies (#[trigger] d[i]).0 != (#[trigger] d[j]).0 by {
            assert(s[i].0 != s[j].0);
        }
        lemma_entries_map_update(d, idx, v);
        assert(u.drop_last() =~= d.update(idx, (k, v)));
        assert(s.last().0 != k) by {
            assert(s[s.len() - 1].0 != s[idx].0);
        }
        assert(u.last() == s.last());
        assert(entries_map(u) =~= entries_map(s).insert(k, v));
    }
}

pub proof fn lemma_keys_unique_push<K, V>(s: Seq<(K, V)>, e: (K, V))
    requires
        keys_unique(s),
        forall|j: int| 0 <= j < s.len() ==> (#[trigger] s[j]).0 != e.0,
    ensures
        keys_unique(s.push(e)),
{
    let p = s.push(e);
    assert forall|i: int, j: int| 0 <= i < j < p.len() implies (#[trigger] p[i]).0 != (#[trigger] p[j]).0 by {
        if j == s.len() {
            assert(p[i] == s[i]);
        } else {
            assert(s[i].0 != s[j].0);
        }
    }
}

pub proof fn lemma_push_contains<A>(s: Seq<A>, x: A, u: A)
    ensures
        s.push(x).contains(u) == (s.contains(u) || u == x),
{
    if s.contains(u) {
        let j = choose|j: int| 0 <= j < s.len() && s[j] == u;
        assert(s.push(x)[j] == u);
    }
    if u == x {
        assert(s.push(x)[s.len() as int] == x);
    }
    if s.push(x).contains(u) && u != x {
        let j = choose|j: int| 0 <= j < s.push(x).len() && s.push(x)[j] == u;
        assert(j < s.len());
        assert(s[j] == u);
    }
}

/// The index of the last entry whose key is `k`, if there is one.
pub fn find_key<V>(entries: &Vec<(String, V)>, k: &str) -> (r: Option<usize>)
    ensures
        match r {
            Some(i) => i < entries@.len() && entries@[i as int].0@ == k@ && forall|j: int|
                i < j < entries@.len() ==> (#[trigger] entries@[j]).0@ != k@,
            None => forall|j: int| 0 <= j < entries@.len() ==> (#[trigger] entries@[j]).0@ != k@,
        },
{
    let mut i = entries.len();
    while i > 0
        invariant
            i <= entries@.len(),
            forall|j: int| i <= j < entries@.len() ==> (#[trigger] entries@[j]).0@ != k@,
        decreases i,
    {
        i = i - 1;
        if text_eq(entries[i].0.as_str(), k) {
            return Some(i);
        }
    }
    None
}

/// The index of the last entry whose key is `(a, b)`, if there is one.
pub fn find_pair_key<V>(entries: &Vec<((String, String), V)>, a: &str, b: &str) -> (r: Option<usize>)
    ensures
        match r {
            Some(i) => i < entries@.len() && entries@[i as int].0.0@ == a@ && entries@[i as int].0.1@
                == b@ && forall|j: int|
                i < j < entries@.len() ==> !((#[trigger] entries@[j]).0.0@ == a@ && entries@[j].0.1@
                    == b@),
            None => forall|j: int|
                0 <= j < entries@.len() ==> !((#[trigger] entries@[j]).0.0@ == a@ && entries@[j].0.1@
                    == b@),
        },
{
    let mut i = entries.len();
    while i > 0
        invariant
            i <= entries@.len(),
            forall|j: int|
                i <= j < entries@.len() ==> !((#[trigger] entries@[j]).0.0@ == a@ && entries@[j].0.1@
                    == b@),
        decreases i,
    {
        i = i - 1;
        if text_eq(entries[i].0.0.as_str(), a) && text_eq(entries[i].0.1.as_str(), b) {
            return Some(i);
        }
    }
    None
}

/// Whether some string of the list equals `s`.
pub fn contains_text(strings: &Vec<String>, s: &str) -> (r: bool)
    ensures
        r == exists|j: int| 0 <= j < strings@.len() && (#[trigger] strings@[j])@ == s@,
{
    let mut i: usize = 0;
    while i < strings.len()
        invariant
            i <= strings@.len(),
            forall|j: int| 0 <= j < i ==> (#[trigger] strings@[j])@ != s@,
        decreases strings@.len() - i,
    {
        if text_eq(strings[i].as_str(), s) {
            return true;
        }
        i = i + 1;
    }
    false
}

} // verus!
