//! A compilation is determined by the spans it reads: at most one list of
//! sessions, turns, tool calls and unknown telemetry meets what `compiles_to`
//! says of them.
use vstd::prelude::*;

use crate::collect::{
    lemma_turns_with_key_append, lists_tools, text_strictly_sorted, tool_key, tool_keys, turn_key,
    turn_keys, turns_with_key,
};
use crate::compile::compiles_to;
use crate::laws::law_unknown_listing_is_unique;
use crate::model::{strings_view, tools_view, turns_view, unknown_view, CompiledTelemetry, ToolCallView, TurnView};
use crate::order::{key_le, key_lt, lemma_key_asymmetric, sorted, Key};
use crate::otlp::OtlpRequest;
use crate::raw::{resource_list_spans, spec_raw_spans, RawSpanView};
use crate::text::{lemma_lex_asymmetric, lemma_lex_irreflexive, lex_lt};

verus! {

/// Two strictly sorted lists of the same texts are equal.
pub proof fn lemma_sorted_texts_unique(v1: Seq<Seq<char>>, v2: Seq<Seq<char>>)
    requires
        text_strictly_sorted(v1),
        text_strictly_sorted(v2),
        forall|x: Seq<char>| v1.contains(x) <==> v2.contains(x),
    ensures
        v1 == v2,
    decreases v1.len(),
{
    if v1.len() == 0 {
        if v2.len() > 0 {
            assert(v2.contains(v2[0]));
        }
        assert(v1 =~= v2);
        return;
    }
    assert(v1.contains(v1[0]));
    assert(v2.len() > 0);
    assert(v2.contains(v2[0]));
    let a = v1[0];
    let b = v2[0];
    let i = choose|i: int| 0 <= i < v1.len() && v1[i] == b;
    let j = choose|j: int| 0 <= j < v2.len() && v2[j] == a;
    if a != b {
        assert(lex_lt(v1[0], v1[i]));
        assert(lex_lt(v2[0], v2[j]));
        lemma_lex_asymmetric(a, b);
    }
    let t1 = v1.drop_first();
    let t2 = v2.drop_first();
    assert forall|x: Seq<char>| t1.contains(x) <==> t2.contains(x) by {
        if t1.contains(x) {
            let k = choose|k: int| 0 <= k < t1.len() && t1[k] == x;
            assert(v1[k + 1] == x);
            assert(lex_lt(v1[0], v1[k + 1]));
            lemma_lex_irreflexive(a);
            assert(v2.contains(x));
            let l = choose|l: int| 0 <= l < v2.len() && v2[l] == x;
            assert(l != 0);
            assert(t2[l - 1] == x);
        }
        if t2.contains(x) {
            let k = choose|k: int| 0 <= k < t2.len() && t2[k] == x;
            assert(v2[k + 1] == x);
            assert(lex_lt(v2[0], v2[k + 1]));
            lemma_lex_irreflexive(b);
            assert(v1.contains(x));
            let l = choose|l: int| 0 <= l < v1.len() && v1[l] == x;
            assert(l != 0);
            assert(t1[l - 1] == x);
        }
    }
    assert forall|p: int, q: int| 0 <= p < q < t1.len() implies lex_lt(#[trigger] t1[p], #[trigger] t1[q]) by {
        assert(t1[p] == v1[p + 1] && t1[q] == v1[q + 1]);
    }
    assert forall|p: int, q: int| 0 <= p < q < t2.len() implies lex_lt(#[trigger] t2[p], #[trigger] t2[q]) by {
        assert(t2[p] == v2[p + 1] && t2[q] == v2[q + 1]);
    }
    lemma_sorted_texts_unique(t1, t2);
    assert(v1 =~= seq![a] + t1);
    assert(v2 =~= seq![b] + t2);
}

/// The rest of a tool listing lists the map without its first entry.
proof fn lemma_tools_tail(l: Seq<ToolCallView>, m: Map<Key, ToolCallView>)
    requires
        lists_tools(l, m),
        l.len() > 0,
    ensures
        lists_tools(l.drop_first(), m.remove(tool_key(l[0]))),
{
    let k0 = tool_key(l[0]);
    let t = l.drop_first();
    let m2 = m.remove(k0);
    assert forall|p: int, q: int| 0 <= p < q < tool_keys(t).len() implies key_lt(#[trigger] tool_keys(t)[p], #[trigger] tool_keys(t)[q]) by {
        assert(tool_keys(t)[p] == tool_keys(l)[p + 1]);
        assert(tool_keys(t)[q] == tool_keys(l)[q + 1]);
    }
    assert forall|i: int| 0 <= i < t.len() implies m2.dom().contains(tool_key(#[trigger] t[i])) && m2[tool_key(t[i])] == t[i] by {
        assert(t[i] == l[i + 1]);
        assert(tool_keys(l)[0] == k0);
        assert(tool_keys(l)[i + 1] == tool_key(l[i + 1]));
        lemma_key_asymmetric(k0, tool_key(l[i + 1]));
    }
    assert forall|k: Key| #[trigger] m2.dom().contains(k) implies exists|i: int| 0 <= i < t.len() && tool_key(t[i]) == k by {
        let i = choose|i: int| 0 <= i < l.len() && tool_key(l[i]) == k;
        assert(i != 0);
        assert(t[i - 1] == l[i]);
    }
}

/// At most one list holds the tool calls of a map in ascending order of key.
pub proof fn lemma_tool_listing_unique(l1: Seq<ToolCallView>, l2: Seq<ToolCallView>, m: Map<Key, ToolCallView>)
    requires
        lists_tools(l1, m),
        lists_tools(l2, m),
    ensures
        l1 == l2,
    decreases l1.len(),
{
    if l1.len() == 0 {
        if l2.len() > 0 {
            assert(m.dom().contains(tool_key(l2[0])));
        }
        assert(l1 =~= l2);
        return;
    }
    let a = l1[0];
    let ka = tool_key(a);
    assert(m.dom().contains(ka));
    let j = choose|j: int| 0 <= j < l2.len() && tool_key(l2[j]) == ka;
    let b = l2[0];
    let kb = tool_key(b);
    assert(m.dom().contains(kb));
    let i = choose|i: int| 0 <= i < l1.len() && tool_key(l1[i]) == kb;
    if ka != kb {
        assert(tool_keys(l1)[0] == ka && tool_keys(l1)[i] == kb);
        assert(tool_keys(l2)[0] == kb && tool_keys(l2)[j] == ka);
        assert(key_lt(ka, kb));
        assert(key_lt(kb, ka));
        lemma_key_asymmetric(ka, kb);
    }
    assert(a == m[ka]);
    assert(b == m[kb]);
    lemma_tools_tail(l1, m);
    lemma_tools_tail(l2, m);
    lemma_tool_listing_unique(l1.drop_first(), l2.drop_first(), m.remove(ka));
    assert(l1 =~= seq![a] + l1.drop_first());
    assert(l2 =~= seq![b] + l2.drop_first());
}

/// The turns of a key, of a list that starts with `a`.
proof fn lemma_turns_with_key_front(a: TurnView, t: Seq<TurnView>, k: Key)
    ensures
        turns_with_key(seq![a] + t, k) == if turn_key(a) == k {
            seq![a] + turns_with_key(t, k)
        } else {
            turns_with_key(t, k)
        },
{
    lemma_turns_with_key_append(seq![a], t, k);
    assert(seq![a].drop_last() =~= Seq::<TurnView>::empty());
    assert(seq![a].last() == a);
    assert(turns_with_key(Seq::<TurnView>::empty(), k) =~= Seq::<TurnView>::empty());
    if turn_key(a) == k {
        assert(turns_with_key(seq![a], k) =~= seq![a]);
    } else {
        assert(turns_with_key(seq![a], k) =~= Seq::<TurnView>::empty());
        assert(Seq::<TurnView>::empty() + turns_with_key(t, k) =~= turns_with_key(t, k));
    }
}

/// A turn of a list is among the turns of its key.
proof fn lemma_member_has_turns_of_key(v: Seq<TurnView>, i: int)
    requires
        0 <= i < v.len(),
    ensures
        turns_with_key(v, turn_key(v[i])).len() > 0,
{
    crate::laws::lemma_turn_with_own_key(v, i);
}

/// Two lists of turns sorted by key, with the same turns of each key in the
/// same order, are equal.
pub proof fn lemma_turn_listing_unique(l1: Seq<TurnView>, l2: Seq<TurnView>)
    requires
        sorted(turn_keys(l1)),
        sorted(turn_keys(l2)),
        forall|k: Key| #[trigger] turns_with_key(l1, k) == turns_with_key(l2, k),
    ensures
        l1 == l2,
    decreases l1.len(),
{
    if l1.len() == 0 {
        if l2.len() > 0 {
            lemma_member_has_turns_of_key(l2, 0);
            assert(turns_with_key(l1, turn_key(l2[0])) == turns_with_key(l2, turn_key(l2[0])));
            assert(turns_with_key(l1, turn_key(l2[0])) =~= Seq::<TurnView>::empty());
        }
        assert(l1 =~= l2);
        return;
    }
    let a = l1[0];
    let t1 = l1.drop_first();
    assert(l1 =~= seq![a] + t1);
    let ka = turn_key(a);
    lemma_turns_with_key_front(a, t1, ka);
    assert(turns_with_key(l2, ka) == turns_with_key(l1, ka));
    assert(turns_with_key(l2, ka).len() > 0);
    assert(l2.len() > 0) by {
        if l2.len() == 0 {
            assert(turns_with_key(l2, ka) =~= Seq::<TurnView>::empty());
        }
    }
    let b = l2[0];
    let t2 = l2.drop_first();
    assert(l2 =~= seq![b] + t2);
    let kb = turn_key(b);
    lemma_turns_with_key_front(b, t2, kb);
    lemma_turns_with_key_front(b, t2, ka);
    lemma_turns_with_key_front(a, t1, kb);
    if ka != kb {
        // the turns of `ka` in l2 lie in its rest, after b; those of `kb` in l1 after a
        lemma_turn_of_key_in(t2, ka);
        lemma_turn_of_key_in(t1, kb);
        let j = choose|j: int| 0 <= j < t2.len() && turn_key(t2[j]) == ka;
        let i = choose|i: int| 0 <= i < t1.len() && turn_key(t1[i]) == kb;
        assert(turn_keys(l2)[0] == kb && turn_keys(l2)[j + 1] == turn_key(t2[j]));
        assert(turn_keys(l1)[0] == ka && turn_keys(l1)[i + 1] == turn_key(t1[i]));
        assert(key_le(kb, ka));
        assert(key_le(ka, kb));
        lemma_key_asymmetric(ka, kb);
    }
    assert(turns_with_key(l1, ka)[0] == a);
    assert(turns_with_key(l2, ka)[0] == b);
    assert(a == b);
    assert forall|k: Key| #[trigger] turns_with_key(t1, k) == turns_with_key(t2, k) by {
        lemma_turns_with_key_front(a, t1, k);
        lemma_turns_with_key_front(b, t2, k);
        assert(turns_with_key(l1, k) == turns_with_key(l2, k));
        if turn_key(a) == k {
            assert(turns_with_key(t1, k) =~= turns_with_key(l1, k).drop_first());
            assert(turns_with_key(t2, k) =~= turns_with_key(l2, k).drop_first());
        }
    }
    assert forall|p: int, q: int| 0 <= p < q < turn_keys(t1).len() implies key_le(#[trigger] turn_keys(t1)[p], #[trigger] turn_keys(t1)[q]) by {
        assert(turn_keys(t1)[p] == turn_keys(l1)[p + 1]);
        assert(turn_keys(t1)[q] == turn_keys(l1)[q + 1]);
    }
    assert forall|p: int, q: int| 0 <= p < q < turn_keys(t2).len() implies key_le(#[trigger] turn_keys(t2)[p], #[trigger] turn_keys(t2)[q]) by {
        assert(turn_keys(t2)[p] == turn_keys(l2)[p + 1]);
        assert(turn_keys(t2)[q] == turn_keys(l2)[q + 1]);
    }
    lemma_turn_listing_unique(t1, t2);
}

/// A list with turns of key `k` holds a turn of that key.
proof fn lemma_turn_of_key_in(v: Seq<TurnView>, k: Key)
    requires
        turns_with_key(v, k).len() > 0,
    ensures
        exists|j: int| 0 <= j < v.len() && turn_key(v[j]) == k,
    decreases v.len(),
{
    if v.len() == 0 {
        assert(turns_with_key(v, k) =~= Seq::<TurnView>::empty());
    } else if turn_key(v.last()) == k {
        assert(turn_key(v[v.len() - 1]) == k);
    } else {
        assert(turns_with_key(v, k) =~= turns_with_key(v.drop_last(), k) + Seq::<TurnView>::empty());
        lemma_turn_of_key_in(v.drop_last(), k);
        let j = choose|j: int| 0 <= j < v.drop_last().len() && turn_key(v.drop_last()[j]) == k;
        assert(v[j] == v.drop_last()[j]);
    }
}

/// Two compilations of the same spans are equal: the sessions, the turns, the
/// tool calls and the unknown telemetry, each in its order.
pub proof fn law_compilation_is_determined(all: Seq<RawSpanView>, c1: CompiledTelemetry, c2: CompiledTelemetry)
    requires
        compiles_to(all, c1),
        compiles_to(all, c2),
    ensures
        strings_view(c1.sessions@) == strings_view(c2.sessions@),
        turns_view(c1.turns@) == turns_view(c2.turns@),
        tools_view(c1.tool_calls@) == tools_view(c2.tool_calls@),
        unknown_view(c1.unknown@) == unknown_view(c2.unknown@),
{
    let s1 = strings_view(c1.sessions@);
    let s2 = strings_view(c2.sessions@);
    assert forall|x: Seq<char>| s1.contains(x) <==> s2.contains(x) by {
        assert(s1.contains(x) <==> crate::compile::compiled_sessions(all).contains(x));
        assert(s2.contains(x) <==> crate::compile::compiled_sessions(all).contains(x));
    }
    lemma_sorted_texts_unique(s1, s2);
    assert forall|k: Key| #[trigger] turns_with_key(turns_view(c1.turns@), k) == turns_with_key(turns_view(c2.turns@), k) by {
        assert(turns_with_key(turns_view(c1.turns@), k) == turns_with_key(crate::compile::turn_candidates(all), k));
        assert(turns_with_key(turns_view(c2.turns@), k) == turns_with_key(crate::compile::turn_candidates(all), k));
    }
    lemma_turn_listing_unique(turns_view(c1.turns@), turns_view(c2.turns@));
    lemma_tool_listing_unique(
        tools_view(c1.tool_calls@),
        tools_view(c2.tool_calls@),
        crate::compile::tool_aggregate(crate::compile::tool_candidates(all)),
    );
    law_unknown_listing_is_unique(
        unknown_view(c1.unknown@),
        unknown_view(c2.unknown@),
        crate::compile::unknown_aggregate(crate::compile::unknown_obs(all)),
    );
}

/// How spans are grouped into resources and scopes does not change a
/// compilation: two requests with the same spans in the same order compile to
/// the same sessions, turns, tool calls and unknown telemetry.
pub proof fn law_grouping_does_not_change_compilation(
    r1: OtlpRequest,
    r2: OtlpRequest,
    c1: CompiledTelemetry,
    c2: CompiledTelemetry,
)
    requires
        resource_list_spans(r1.resource_spans@) == resource_list_spans(r2.resource_spans@),
        compiles_to(spec_raw_spans(r1), c1),
        compiles_to(spec_raw_spans(r2), c2),
    ensures
        strings_view(c1.sessions@) == strings_view(c2.sessions@),
        turns_view(c1.turns@) == turns_view(c2.turns@),
        tools_view(c1.tool_calls@) == tools_view(c2.tool_calls@),
        unknown_view(c1.unknown@) == unknown_view(c2.unknown@),
{
    assert(spec_raw_spans(r1) == spec_raw_spans(r2));
    law_compilation_is_determined(spec_raw_spans(r1), c1, c2);
}

} // verus!
