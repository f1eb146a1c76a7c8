//! The ordered collections that a compilation fills: the set of sessions, the
//! turns in a stable order, and the tool calls with one result per key.
use vstd::prelude::*;

use crate::model::{strings_view, tools_view, turns_view, ToolCall, ToolCallView, Turn, TurnView};
use crate::order::{
    compare_keys, key_le, key_lt, lemma_insert_strictly_sorted, lemma_key_asymmetric,
    lemma_key_le_transitive, lemma_key_total, sorted, strictly_sorted, Key,
};
use crate::text::{compare_text, lemma_lex_total, lemma_lex_transitive, lex_lt};

verus! {

// ---------------------------------------------------------------------------
// Sessions
// ---------------------------------------------------------------------------

pub open spec fn text_strictly_sorted(v: Seq<Seq<char>>) -> bool {
    forall|a: int, b: int| 0 <= a < b < v.len() ==> lex_lt(#[trigger] v[a], #[trigger] v[b])
}

/// Adds `s` to the sorted set of sessions.
pub fn insert_session(sessions: &mut Vec<String>, s: &String)
    requires
        text_strictly_sorted(strings_view(old(sessions)@)),
    ensures
        text_strictly_sorted(strings_view(final(sessions)@)),
        forall|x: Seq<char>| #[trigger] strings_view(final(sessions)@).contains(x) <==> (strings_view(old(sessions)@).contains(x) || x == s@),
{
    let ghost v = strings_view(sessions@);
    let mut p: usize = 0;
    while p < sessions.len() && compare_text(sessions[p].as_str(), s.as_str()) < 0
        invariant
            p <= sessions@.len(),
            v == strings_view(sessions@),
            forall|a: int| 0 <= a < p ==> lex_lt(#[trigger] v[a], s@),
        decreases sessions@.len() - p,
    {
        assert(v[p as int] == sessions@[p as int]@);
        p = p + 1;
    }
    if p < sessions.len() && compare_text(sessions[p].as_str(), s.as_str()) == 0 {
        proof {
            assert(v[p as int] == s@);
        }
        return;
    }
    proof {
        if p < sessions@.len() {
            assert(v[p as int] == sessions@[p as int]@);
            lemma_lex_total(v[p as int], s@);
        }
        assert forall|a: int, b: int| 0 <= a < b < v.insert(p as int, s@).len() implies lex_lt(#[trigger] v.insert(p as int, s@)[a], #[trigger] v.insert(p as int, s@)[b]) by {
            let r = v.insert(p as int, s@);
            if b < p {
                assert(r[a] == v[a] && r[b] == v[b]);
            } else if b == p {
                assert(r[a] == v[a]);
            } else if a < p {
                assert(r[a] == v[a] && r[b] == v[b - 1]);
                if b - 1 > p {
                    lemma_lex_transitive(s@, v[p as int], v[b - 1]);
                }
                lemma_lex_transitive(v[a], s@, v[b - 1]);
            } else if a == p {
                assert(r[b] == v[b - 1]);
                if b - 1 > p {
                    lemma_lex_transitive(s@, v[p as int], v[b - 1]);
                }
            } else {
                assert(r[a] == v[a - 1] && r[b] == v[b - 1]);
            }
        }
    }
    sessions.insert(p, s.clone());
    proof {
        assert(strings_view(sessions@) =~= v.insert(p as int, s@));
        assert forall|x: Seq<char>| #[trigger] strings_view(sessions@).contains(x) <==> (v.contains(x) || x == s@) by {
            let r = v.insert(p as int, s@);
            if r.contains(x) {
                let j = choose|j: int| 0 <= j < r.len() && r[j] == x;
                if j < p {
                    assert(v[j] == x);
                } else if j > p {
                    assert(v[j - 1] == x);
                }
            }
            if v.contains(x) {
                let j = choose|j: int| 0 <= j < v.len() && v[j] == x;
                if j < p {
                    assert(r[j] == x);
                } else {
                    assert(r[j + 1] == x);
                }
            }
            if x == s@ {
                assert(r[p as int] == x);
            }
        }
    }
}

// ---------------------------------------------------------------------------
// Turns
// ---------------------------------------------------------------------------

pub open spec fn turn_key(t: TurnView) -> Key {
    (t.session_id, t.id)
}

pub open spec fn turn_keys(v: Seq<TurnView>) -> Seq<Key> {
    v.map_values(|t: TurnView| turn_key(t))
}

/// The turns of `v` whose key is `k`, in order.
pub open spec fn turns_with_key(v: Seq<TurnView>, k: Key) -> Seq<TurnView>
    decreases v.len(),
{
    if v.len() == 0 {
        Seq::empty()
    } else {
        turns_with_key(v.drop_last(), k) + if turn_key(v.last()) == k {
            seq![v.last()]
        } else {
            Seq::empty()
        }
    }
}

pub proof fn lemma_turns_with_key_append(a: Seq<TurnView>, b: Seq<TurnView>, k: Key)
    ensures
        turns_with_key(a + b, k) == turns_with_key(a, k) + turns_with_key(b, k),
    decreases b.len(),
{
    if b.len() == 0 {
        assert(a + b =~= a);
        assert(turns_with_key(a, k) + turns_with_key(b, k) =~= turns_with_key(a, k));
    } else {
        assert((a + b).drop_last() =~= a + b.drop_last());
        assert((a + b).last() == b.last());
        lemma_turns_with_key_append(a, b.drop_last(), k);
        assert(turns_with_key(a + b, k) =~= turns_with_key(a, k) + turns_with_key(b, k));
    }
}

proof fn lemma_turns_with_key_none(v: Seq<TurnView>, k: Key)
    requires
        forall|i: int| 0 <= i < v.len() ==> turn_key(#[trigger] v[i]) != k,
    ensures
        turns_with_key(v, k) == Seq::<TurnView>::empty(),
    decreases v.len(),
{
    if v.len() > 0 {
        assert(v.last() == v[v.len() - 1]);
        lemma_turns_with_key_none(v.drop_last(), k);
    }
}

/// Inserting `x` after every turn whose key is at most its own, and before
/// every turn whose key is above it, appends `x` to the turns of its key.
proof fn lemma_turns_with_key_insert(v: Seq<TurnView>, p: int, x: TurnView, k: Key)
    requires
        0 <= p <= v.len(),
        forall|i: int| p <= i < v.len() ==> key_lt(turn_key(x), turn_key(#[trigger] v[i])),
    ensures
        turns_with_key(v.insert(p, x), k) == if turn_key(x) == k {
            turns_with_key(v, k).push(x)
        } else {
            turns_with_key(v, k)
        },
{
    let front = v.subrange(0, p);
    let back = v.subrange(p, v.len() as int);
    assert(v =~= front + back);
    assert(v.insert(p, x) =~= front + seq![x] + back);
    lemma_turns_with_key_append(front, back, k);
    lemma_turns_with_key_append(front + seq![x], back, k);
    lemma_turns_with_key_append(front, seq![x], k);
    assert(seq![x].drop_last() =~= Seq::<TurnView>::empty());
    assert(seq![x].last() == x);
    assert(turns_with_key(Seq::<TurnView>::empty(), k) =~= Seq::<TurnView>::empty());
    assert(turns_with_key(seq![x], k) =~= if turn_key(x) == k { seq![x] } else { Seq::<TurnView>::empty() });
    if turn_key(x) == k {
        assert forall|i: int| 0 <= i < back.len() implies turn_key(#[trigger] back[i]) != k by {
            assert(back[i] == v[p + i]);
            lemma_key_asymmetric(turn_key(x), turn_key(v[p + i]));
        }
        lemma_turns_with_key_none(back, k);
        assert(turns_with_key(v.insert(p, x), k) =~= turns_with_key(v, k).push(x));
    } else {
        assert(turns_with_key(v.insert(p, x), k) =~= turns_with_key(v, k));
    }
}

/// Places a turn after every turn whose key is at most its own: the turns stay
/// ordered by key, and turns of equal key stay in the order they came.
pub fn insert_turn(turns: &mut Vec<Turn>, turn: Turn)
    requires
        sorted(turn_keys(turns_view(old(turns)@))),
    ensures
        sorted(turn_keys(turns_view(final(turns)@))),
        forall|k: Key| #[trigger] turns_with_key(turns_view(final(turns)@), k) == if turn_key(turn@) == k {
            turns_with_key(turns_view(old(turns)@), k).push(turn@)
        } else {
            turns_with_key(turns_view(old(turns)@), k)
        },
{
    let ghost v = turns_view(turns@);
    let ghost x = turn@;
    let mut p: usize = turns.len();
    while p > 0 && compare_keys(turn.session_id.as_str(), turn.id.as_str(), turns[p - 1].session_id.as_str(), turns[p - 1].id.as_str()) < 0
        invariant
            p <= turns@.len(),
            v == turns_view(turns@),
            x == turn@,
            forall|i: int| p <= i < v.len() ==> key_lt(turn_key(x), turn_key(#[trigger] v[i])),
        decreases p,
    {
        assert(v[p - 1] == turns@[p - 1]@);
        p = p - 1;
    }
    proof {
        let ks = turn_keys(v);
        if p > 0 {
            assert(v[p - 1] == turns@[p - 1]@);
            lemma_key_total(turn_key(x), turn_key(v[p - 1]));
        }
        let r = v.insert(p as int, x);
        assert(turn_keys(r) =~= ks.insert(p as int, turn_key(x)));
        assert forall|a: int, b: int| 0 <= a < b < r.len() implies key_le(#[trigger] turn_keys(r)[a], #[trigger] turn_keys(r)[b]) by {
            let rk = turn_keys(r);
            if b < p {
                assert(rk[a] == ks[a] && rk[b] == ks[b]);
            } else if b == p {
                assert(rk[a] == ks[a]);
                assert(key_le(ks[a], ks[p - 1]) || a == p - 1);
                assert(key_le(ks[p - 1], turn_key(x)));
                if a < p - 1 {
                    lemma_key_le_transitive(ks[a], ks[p - 1], turn_key(x));
                }
            } else if a < p {
                assert(rk[a] == ks[a] && rk[b] == ks[b - 1]);
                assert(key_lt(turn_key(x), ks[b - 1]));
                assert(key_le(ks[a], ks[p - 1]) || a == p - 1);
                assert(key_le(ks[p - 1], turn_key(x)));
                if a < p - 1 {
                    lemma_key_le_transitive(ks[a], ks[p - 1], turn_key(x));
                }
                lemma_key_le_transitive(ks[a], turn_key(x), ks[b - 1]);
            } else if a == p {
                assert(rk[b] == ks[b - 1]);
            } else {
                assert(rk[a] == ks[a - 1] && rk[b] == ks[b - 1]);
            }
        }
        assert forall|k: Key| #[trigger] turns_with_key(r, k) == if turn_key(x) == k {
            turns_with_key(v, k).push(x)
        } else {
            turns_with_key(v, k)
        } by {
            lemma_turns_with_key_insert(v, p as int, x, k);
        }
    }
    turns.insert(p, turn);
    assert(turns_view(turns@) =~= v.insert(p as int, x));
}

// ---------------------------------------------------------------------------
// Tool calls
// ---------------------------------------------------------------------------

pub open spec fn tool_key(t: ToolCallView) -> Key {
    (t.session_id, t.id)
}

pub open spec fn tool_keys(v: Seq<ToolCallView>) -> Seq<Key> {
    v.map_values(|t: ToolCallView| tool_key(t))
}

/// A later result replaces the kept one only when it completed strictly later.
pub open spec fn tool_step(m: Map<Key, ToolCallView>, t: ToolCallView) -> Map<Key, ToolCallView> {
    let k = tool_key(t);
    if m.dom().contains(k) && m[k].completed_at >= t.completed_at {
        m
    } else {
        m.insert(k, t)
    }
}

/// `list` holds the entries of `m`, one each, in ascending order of key.
pub open spec fn lists_tools(list: Seq<ToolCallView>, m: Map<Key, ToolCallView>) -> bool {
    &&& strictly_sorted(tool_keys(list))
    &&& forall|i: int| 0 <= i < list.len() ==> m.dom().contains(tool_key(#[trigger] list[i])) && m[tool_key(list[i])] == list[i]
    &&& forall|k: Key| #[trigger] m.dom().contains(k) ==> exists|i: int| 0 <= i < list.len() && tool_key(list[i]) == k
}

/// Keeps `tool` as the result of its key unless the kept one completed at the
/// same time or later.
pub fn insert_tool(tools: &mut Vec<ToolCall>, tool: ToolCall, Ghost(m): Ghost<Map<Key, ToolCallView>>)
    requires
        lists_tools(tools_view(old(tools)@), m),
    ensures
        lists_tools(tools_view(final(tools)@), tool_step(m, tool@)),
{
    let ghost v = tools_view(tools@);
    let ghost x = tool@;
    let ghost k = tool_key(x);
    let mut p: usize = 0;
    while p < tools.len() && compare_keys(tools[p].session_id.as_str(), tools[p].id.as_str(), tool.session_id.as_str(), tool.id.as_str()) < 0
        invariant
            p <= tools@.len(),
            v == tools_view(tools@),
            x == tool@,
            k == tool_key(x),
            forall|a: int| 0 <= a < p ==> key_lt(#[trigger] tool_keys(v)[a], k),
        decreases tools@.len() - p,
    {
        assert(tool_keys(v)[p as int] == tool_key(tools@[p as int]@));
        p = p + 1;
    }
    if p < tools.len() && compare_keys(tools[p].session_id.as_str(), tools[p].id.as_str(), tool.session_id.as_str(), tool.id.as_str()) == 0 {
        assert(tool_key(v[p as int]) == k);
        assert(m.dom().contains(k) && m[k] == v[p as int]);
        if tools[p].completed_at >= tool.completed_at {
            return;
        }
        tools.set(p, tool);
        proof {
            let r = v.update(p as int, x);
            assert(tools_view(tools@) =~= r);
            assert(tool_keys(r) =~= tool_keys(v));
            let m2 = m.insert(k, x);
            assert forall|i: int| 0 <= i < r.len() implies m2.dom().contains(tool_key(#[trigger] r[i])) && m2[tool_key(r[i])] == r[i] by {
                if i != p {
                    assert(tool_keys(v)[i] == tool_key(v[i]));
                    assert(tool_keys(v)[p as int] == tool_key(v[p as int]));
                    if i < p {
                        lemma_key_asymmetric(tool_keys(v)[i], tool_keys(v)[p as int]);
                    } else {
                        lemma_key_asymmetric(tool_keys(v)[p as int], tool_keys(v)[i]);
                    }
                }
            }
            assert forall|key: Key| #[trigger] m2.dom().contains(key) implies exists|i: int| 0 <= i < r.len() && tool_key(r[i]) == key by {
                if key != k {
                    let i = choose|i: int| 0 <= i < v.len() && tool_key(v[i]) == key;
                    assert(r[i] == v[i]);
                } else {
                    assert(tool_key(r[p as int]) == key);
                }
            }
        }
        return;
    }
    proof {
        assert forall|a: int| 0 <= a < v.len() implies tool_key(#[trigger] v[a]) != k by {
            assert(tool_keys(v)[a] == tool_key(v[a]));
            if a < p {
                lemma_key_asymmetric(tool_keys(v)[a], k);
            } else {
                assert(tool_keys(v)[p as int] == tool_key(v[p as int]));
                lemma_key_total(tool_keys(v)[p as int], k);
                if a > p {
                    assert(key_lt(tool_keys(v)[p as int], tool_keys(v)[a]));
                    crate::order::lemma_key_transitive(k, tool_keys(v)[p as int], tool_keys(v)[a]);
                    lemma_key_asymmetric(k, tool_keys(v)[a]);
                }
            }
        }
        assert(!m.dom().contains(k)) by {
            if m.dom().contains(k) {
                let i = choose|i: int| 0 <= i < v.len() && tool_key(v[i]) == k;
            }
        }
        if p < v.len() {
            assert(tool_keys(v)[p as int] == tool_key(v[p as int]));
            lemma_key_total(tool_keys(v)[p as int], k);
        }
        lemma_insert_strictly_sorted(tool_keys(v), p as int, k);
    }
    tools.insert(p, tool);
    proof {
        let r = v.insert(p as int, x);
        assert(tools_view(tools@) =~= r);
        assert(tool_keys(r) =~= tool_keys(v).insert(p as int, k));
        let m2 = m.insert(k, x);
        assert forall|i: int| 0 <= i < r.len() implies m2.dom().contains(tool_key(#[trigger] r[i])) && m2[tool_key(r[i])] == r[i] by {
            if i < p {
                assert(r[i] == v[i]);
            } else if i > p {
                assert(r[i] == v[i - 1]);
            }
        }
        assert forall|key: Key| #[trigger] m2.dom().contains(key) implies exists|i: int| 0 <= i < r.len() && tool_key(r[i]) == key by {
            if key != k {
                let i = choose|i: int| 0 <= i < v.len() && tool_key(v[i]) == key;
                if i < p {
                    assert(r[i] == v[i]);
                } else {
                    assert(r[i + 1] == v[i]);
                }
            } else {
                assert(tool_key(r[p as int]) == key);
            }
        }
    }
}

} // verus!
