//! The order of two-part keys such as `(session_id, id)`: by the first part,
//! then by the second, each lexicographically.
use vstd::prelude::*;

use crate::text::{
    compare_text, lemma_lex_asymmetric, lemma_lex_irreflexive, lemma_lex_total,
    lemma_lex_transitive, lex_lt,
};

verus! {

pub type Key = (Seq<char>, Seq<char>);

pub open spec fn key_lt(a: Key, b: Key) -> bool {
    lex_lt(a.0, b.0) || (a.0 == b.0 && lex_lt(a.1, b.1))
}

pub open spec fn key_le(a: Key, b: Key) -> bool {
    key_lt(a, b) || a == b
}

pub proof fn lemma_key_asymmetric(a: Key, b: Key)
    requires
        key_lt(a, b),
    ensures
        !key_lt(b, a),
        a != b,
{
    if lex_lt(a.0, b.0) {
        lemma_lex_asymmetric(a.0, b.0);
    } else {
        lemma_lex_asymmetric(a.1, b.1);
        lemma_lex_irreflexive(a.0);
    }
}

pub proof fn lemma_key_transitive(a: Key, b: Key, c: Key)
    requires
        key_lt(a, b),
        key_lt(b, c),
    ensures
        key_lt(a, c),
{
    if lex_lt(a.0, b.0) && lex_lt(b.0, c.0) {
        lemma_lex_transitive(a.0, b.0, c.0);
    } else if lex_lt(a.0, b.0) {
    } else if lex_lt(b.0, c.0) {
    } else {
        lemma_lex_transitive(a.1, b.1, c.1);
    }
}

pub proof fn lemma_key_le_transitive(a: Key, b: Key, c: Key)
    requires
        key_le(a, b),
        key_le(b, c),
    ensures
        key_le(a, c),
{
    if key_lt(a, b) && key_lt(b, c) {
        lemma_key_transitive(a, b, c);
    }
}

pub proof fn lemma_key_total(a: Key, b: Key)
    ensures
        key_lt(a, b) || key_lt(b, a) || a == b,
{
    lemma_lex_total(a.0, b.0);
    lemma_lex_total(a.1, b.1);
}

/// Each key is below every later one.
pub open spec fn strictly_sorted(keys: Seq<Key>) -> bool {
    forall|a: int, b: int| 0 <= a < b < keys.len() ==> key_lt(#[trigger] keys[a], #[trigger] keys[b])
}

/// Each key is at most every later one.
pub open spec fn sorted(keys: Seq<Key>) -> bool {
    forall|a: int, b: int| 0 <= a < b < keys.len() ==> key_le(#[trigger] keys[a], #[trigger] keys[b])
}

/// Inserting a key after every smaller key and before every larger one keeps
/// the keys strictly sorted.
pub proof fn lemma_insert_strictly_sorted(keys: Seq<Key>, p: int, k: Key)
    requires
        strictly_sorted(keys),
        0 <= p <= keys.len(),
        forall|a: int| 0 <= a < p ==> key_lt(#[trigger] keys[a], k),
        p < keys.len() ==> key_lt(k, keys[p]),
    ensures
        strictly_sorted(keys.insert(p, k)),
{
    let r = keys.insert(p, k);
    assert forall|a: int, b: int| 0 <= a < b < r.len() implies key_lt(#[trigger] r[a], #[trigger] r[b]) by {
        if b < p {
            assert(r[a] == keys[a] && r[b] == keys[b]);
        } else if b == p {
            assert(r[a] == keys[a]);
        } else if a < p {
            assert(r[a] == keys[a] && r[b] == keys[b - 1]);
            if b - 1 > p {
                lemma_key_transitive(k, keys[p], keys[b - 1]);
            }
            lemma_key_transitive(keys[a], k, keys[b - 1]);
        } else if a == p {
            assert(r[b] == keys[b - 1]);
            if b - 1 > p {
                lemma_key_transitive(k, keys[p], keys[b - 1]);
            }
        } else {
            assert(r[a] == keys[a - 1] && r[b] == keys[b - 1]);
        }
    }
}

/// Three-way comparison of the keys `(a0, a1)` and `(b0, b1)` in the order of `key_lt`.
pub fn compare_keys(a0: &str, a1: &str, b0: &str, b1: &str) -> (r: i8)
    ensures
        r < 0 <==> key_lt((a0@, a1@), (b0@, b1@)),
        r == 0 <==> (a0@, a1@) == (b0@, b1@),
        r > 0 <==> key_lt((b0@, b1@), (a0@, a1@)),
{
    let first = compare_text(a0, b0);
    proof {
        lemma_lex_irreflexive(a1@);
        lemma_lex_irreflexive(a0@);
    }
    if first != 0 {
        proof {
            if first < 0 {
                lemma_lex_asymmetric(a0@, b0@);
            } else {
                lemma_lex_asymmetric(b0@, a0@);
            }
        }
        first
    } else {
        let second = compare_text(a1, b1);
        proof {
            if second < 0 {
                lemma_lex_asymmetric(a1@, b1@);
            } else if second > 0 {
                lemma_lex_asymmetric(b1@, a1@);
            }
        }
        second
    }
}

} // verus!
