//! Trace and span identifiers only link spans: renaming every trace id one for
//! one, and every span and parent id one for one, changes no compilation.
use vstd::prelude::*;

use crate::entries::{entries_map, lemma_entries_map_finite, lookup};
use crate::links::{
    ancestor_walk, lemma_walk_step, mcp_entries, parent_entries, spec_ancestor_turn, spec_parents,
    spec_starts, start_entries, walk_measure,
};
use crate::order::Key;
use crate::raw::RawSpanView;
use crate::read::spec_input_value;
use crate::turn_info::{last_ttft, sampling_input};
use crate::compile::{
    compiled_sessions, compiles_to, events_tools, spec_canonical_turn, spec_full_extras, tool_candidates,
    tool_candidates_of, turn_candidates, turn_candidates_of, turn_key_set, unknown_obs,
};
use crate::links::spec_mcp_links;
use crate::model::{strings_view, tools_view, turns_view, unknown_view, CompiledTelemetry};
use crate::otlp::{OtlpRequest, OtlpSpan};
use crate::raw::{hex_digit, hex_text, resource_list_spans, spec_raw_span, spec_raw_spans, RawEventView};
use crate::turn_info::{prompt_obs_of, session_obs_of, spec_turn_session};
use crate::uniqueness::law_compilation_is_determined;

verus! {

/// The span with its trace id renamed by `ft` and its span and parent ids by `fs`.
pub open spec fn rename_span(s: RawSpanView, ft: spec_fn(Seq<char>) -> Seq<char>, fs: spec_fn(Seq<char>) -> Seq<char>) -> RawSpanView {
    RawSpanView {
        trace_id: ft(s.trace_id),
        span_id: fs(s.span_id),
        parent_span_id: fs(s.parent_span_id),
        name: s.name,
        started_at: s.started_at,
        ended_at: s.ended_at,
        attributes: s.attributes,
        events: s.events,
    }
}

/// `s2` is `s1` with every span renamed.
pub open spec fn renamed(
    s1: Seq<RawSpanView>,
    s2: Seq<RawSpanView>,
    ft: spec_fn(Seq<char>) -> Seq<char>,
    fs: spec_fn(Seq<char>) -> Seq<char>,
) -> bool {
    &&& s1.len() == s2.len()
    &&& forall|i: int| 0 <= i < s1.len() ==> #[trigger] s2[i] == rename_span(s1[i], ft, fs)
}

pub open spec fn injective(f: spec_fn(Seq<char>) -> Seq<char>) -> bool {
    forall|x: Seq<char>, y: Seq<char>| #[trigger] f(x) == #[trigger] f(y) ==> x == y
}

/// Renamings one for one, where a span id is empty exactly when its new name is.
pub open spec fn renaming_ok(ft: spec_fn(Seq<char>) -> Seq<char>, fs: spec_fn(Seq<char>) -> Seq<char>) -> bool {
    &&& injective(ft)
    &&& injective(fs)
    &&& forall|x: Seq<char>| (#[trigger] fs(x)).len() == 0 <==> x.len() == 0
}

pub proof fn lemma_renamed_prefix(
    s1: Seq<RawSpanView>,
    s2: Seq<RawSpanView>,
    ft: spec_fn(Seq<char>) -> Seq<char>,
    fs: spec_fn(Seq<char>) -> Seq<char>,
)
    requires
        renamed(s1, s2, ft, fs),
        s1.len() > 0,
    ensures
        renamed(s1.drop_last(), s2.drop_last(), ft, fs),
        s2.last() == rename_span(s1.last(), ft, fs),
{
    assert(s2[s2.len() - 1] == rename_span(s1[s1.len() - 1], ft, fs));
    assert forall|i: int| 0 <= i < s1.drop_last().len() implies #[trigger] s2.drop_last()[i] == rename_span(s1.drop_last()[i], ft, fs) by {
        assert(s2.drop_last()[i] == s2[i]);
        assert(s1.drop_last()[i] == s1[i]);
    }
}

/// A renamed span reads the same input.
pub proof fn lemma_input_same(s: RawSpanView, ft: spec_fn(Seq<char>) -> Seq<char>, fs: spec_fn(Seq<char>) -> Seq<char>, key: Seq<char>)
    ensures
        spec_input_value(rename_span(s, ft, fs), key) == spec_input_value(s, key),
{
}

proof fn lemma_mcp_same(s1: Seq<RawSpanView>, s2: Seq<RawSpanView>, ft: spec_fn(Seq<char>) -> Seq<char>, fs: spec_fn(Seq<char>) -> Seq<char>)
    requires
        renamed(s1, s2, ft, fs),
    ensures
        mcp_entries(s2) == mcp_entries(s1),
    decreases s1.len(),
{
    if s1.len() > 0 {
        lemma_renamed_prefix(s1, s2, ft, fs);
        lemma_mcp_same(s1.drop_last(), s2.drop_last(), ft, fs);
        lemma_input_same(s1.last(), ft, fs, "conversation.id"@);
        lemma_input_same(s1.last(), ft, fs, "tool.call_id"@);
        lemma_input_same(s1.last(), ft, fs, "turn.id"@);
    }
}

proof fn lemma_sampling_same(
    s1: Seq<RawSpanView>,
    s2: Seq<RawSpanView>,
    ft: spec_fn(Seq<char>) -> Seq<char>,
    fs: spec_fn(Seq<char>) -> Seq<char>,
    t: Seq<char>,
    key: Seq<char>,
)
    requires
        renamed(s1, s2, ft, fs),
    ensures
        sampling_input(s2, t, key) == sampling_input(s1, t, key),
    decreases s1.len(),
{
    if s1.len() > 0 {
        lemma_renamed_prefix(s1, s2, ft, fs);
        lemma_sampling_same(s1.drop_last(), s2.drop_last(), ft, fs, t, key);
        lemma_input_same(s1.last(), ft, fs, "turn_id"@);
        lemma_input_same(s1.last(), ft, fs, key);
    }
}

proof fn lemma_ttft_same(
    s1: Seq<RawSpanView>,
    s2: Seq<RawSpanView>,
    ft: spec_fn(Seq<char>) -> Seq<char>,
    fs: spec_fn(Seq<char>) -> Seq<char>,
    t: Seq<char>,
)
    requires
        renamed(s1, s2, ft, fs),
    ensures
        last_ttft(s2, t) == last_ttft(s1, t),
    decreases s1.len(),
{
    if s1.len() > 0 {
        lemma_renamed_prefix(s1, s2, ft, fs);
        lemma_ttft_same(s1.drop_last(), s2.drop_last(), ft, fs, t);
        lemma_input_same(s1.last(), ft, fs, "turn_id"@);
    }
}

proof fn lemma_unknown_obs_same(
    s1: Seq<RawSpanView>,
    s2: Seq<RawSpanView>,
    ft: spec_fn(Seq<char>) -> Seq<char>,
    fs: spec_fn(Seq<char>) -> Seq<char>,
)
    requires
        renamed(s1, s2, ft, fs),
    ensures
        unknown_obs(s2) == unknown_obs(s1),
    decreases s1.len(),
{
    if s1.len() > 0 {
        lemma_renamed_prefix(s1, s2, ft, fs);
        lemma_unknown_obs_same(s1.drop_last(), s2.drop_last(), ft, fs);
    }
}

// ---------------------------------------------------------------------------
// Links under renaming
// ---------------------------------------------------------------------------

pub open spec fn rename_key(k: Key, ft: spec_fn(Seq<char>) -> Seq<char>, fs: spec_fn(Seq<char>) -> Seq<char>) -> Key {
    (ft(k.0), fs(k.1))
}

pub open spec fn rename_entries(
    e: Seq<(Key, Seq<char>)>,
    ft: spec_fn(Seq<char>) -> Seq<char>,
    fs: spec_fn(Seq<char>) -> Seq<char>,
    fv: spec_fn(Seq<char>) -> Seq<char>,
) -> Seq<(Key, Seq<char>)> {
    e.map_values(|p: (Key, Seq<char>)| (rename_key(p.0, ft, fs), fv(p.1)))
}

pub open spec fn opt_apply(o: Option<Seq<char>>, f: spec_fn(Seq<char>) -> Seq<char>) -> Option<Seq<char>> {
    match o {
        Some(v) => Some(f(v)),
        None => None,
    }
}

proof fn lemma_parents_renamed(s1: Seq<RawSpanView>, s2: Seq<RawSpanView>, ft: spec_fn(Seq<char>) -> Seq<char>, fs: spec_fn(Seq<char>) -> Seq<char>)
    requires
        renamed(s1, s2, ft, fs),
        renaming_ok(ft, fs),
    ensures
        parent_entries(s2) == rename_entries(parent_entries(s1), ft, fs, fs),
    decreases s1.len(),
{
    if s1.len() > 0 {
        lemma_renamed_prefix(s1, s2, ft, fs);
        lemma_parents_renamed(s1.drop_last(), s2.drop_last(), ft, fs);
        let x = s1.last();
        assert(fs(x.parent_span_id).len() == 0 <==> x.parent_span_id.len() == 0);
        let e = parent_entries(s1.drop_last());
        if x.parent_span_id.len() > 0 {
            assert(rename_entries(e.push(((x.trace_id, x.span_id), x.parent_span_id)), ft, fs, fs)
                =~= rename_entries(e, ft, fs, fs).push(((ft(x.trace_id), fs(x.span_id)), fs(x.parent_span_id))));
        }
    }
}

proof fn lemma_starts_renamed(s1: Seq<RawSpanView>, s2: Seq<RawSpanView>, ft: spec_fn(Seq<char>) -> Seq<char>, fs: spec_fn(Seq<char>) -> Seq<char>)
    requires
        renamed(s1, s2, ft, fs),
    ensures
        start_entries(s2) == rename_entries(start_entries(s1), ft, fs, |v: Seq<char>| v),
    decreases s1.len(),
{
    if s1.len() > 0 {
        lemma_renamed_prefix(s1, s2, ft, fs);
        lemma_starts_renamed(s1.drop_last(), s2.drop_last(), ft, fs);
        let x = s1.last();
        lemma_input_same(x, ft, fs, "turn.id"@);
        let e = start_entries(s1.drop_last());
        let id = |v: Seq<char>| v;
        assert forall|t: Seq<char>| rename_entries(e.push(((x.trace_id, x.span_id), t)), ft, fs, id)
            =~= rename_entries(e, ft, fs, id).push(((ft(x.trace_id), fs(x.span_id)), t)) by {}
        if s1.last().name == "turn/start"@ {
            match crate::value::and_then_string(spec_input_value(x, "turn.id"@)) {
                Some(t) => {
                    assert(rename_entries(e.push(((x.trace_id, x.span_id), t)), ft, fs, id)
                        =~= rename_entries(e, ft, fs, id).push(((ft(x.trace_id), fs(x.span_id)), t)));
                },
                None => {},
            }
        }
    }
}

/// Looking up a renamed key among renamed entries finds the renamed value.
proof fn lemma_lookup_renamed(
    e: Seq<(Key, Seq<char>)>,
    ft: spec_fn(Seq<char>) -> Seq<char>,
    fs: spec_fn(Seq<char>) -> Seq<char>,
    fv: spec_fn(Seq<char>) -> Seq<char>,
    k: Key,
)
    requires
        injective(ft),
        injective(fs),
    ensures
        lookup(entries_map(rename_entries(e, ft, fs, fv)), rename_key(k, ft, fs)) == opt_apply(lookup(entries_map(e), k), fv),
    decreases e.len(),
{
    if e.len() > 0 {
        let r = rename_entries(e, ft, fs, fv);
        assert(r.drop_last() =~= rename_entries(e.drop_last(), ft, fs, fv));
        assert(r.last() == (rename_key(e.last().0, ft, fs), fv(e.last().1)));
        lemma_lookup_renamed(e.drop_last(), ft, fs, fv, k);
        if rename_key(e.last().0, ft, fs) == rename_key(k, ft, fs) {
            assert(ft(e.last().0.0) == ft(k.0));
            assert(fs(e.last().0.1) == fs(k.1));
            assert(e.last().0 == k);
        }
    }
}

/// The walk up renamed parents from a renamed span reaches the same turn.
proof fn lemma_walk_renamed(
    p1: Map<Key, Seq<char>>,
    st1: Map<Key, Seq<char>>,
    p2: Map<Key, Seq<char>>,
    st2: Map<Key, Seq<char>>,
    ft: spec_fn(Seq<char>) -> Seq<char>,
    fs: spec_fn(Seq<char>) -> Seq<char>,
    t: Seq<char>,
    id: Seq<char>,
    v1: Set<Seq<char>>,
    v2: Set<Seq<char>>,
)
    requires
        p1.dom().finite(),
        p2.dom().finite(),
        injective(fs),
        forall|k: Key| #[trigger] lookup(p2, rename_key(k, ft, fs)) == opt_apply(lookup(p1, k), fs),
        forall|k: Key| #[trigger] lookup(st2, rename_key(k, ft, fs)) == lookup(st1, k),
        forall|x: Seq<char>| #[trigger] v2.contains(fs(x)) <==> v1.contains(x),
    ensures
        ancestor_walk(p2, st2, ft(t), fs(id), v2) == ancestor_walk(p1, st1, t, id, v1),
    decreases walk_measure(p1, id, v1),
{
    let k = (t, id);
    assert(lookup(p2, rename_key(k, ft, fs)) == opt_apply(lookup(p1, k), fs));
    assert(lookup(st2, rename_key(k, ft, fs)) == lookup(st1, k));
    assert(v2.contains(fs(id)) <==> v1.contains(id));
    if v1.contains(id) {
    } else if st1.dom().contains(k) {
    } else if p1.dom().contains(k) {
        lemma_walk_step(p1, t, id, v1);
        let w1 = v1.insert(id);
        let w2 = v2.insert(fs(id));
        assert forall|x: Seq<char>| #[trigger] w2.contains(fs(x)) <==> w1.contains(x) by {
            assert(v2.contains(fs(x)) <==> v1.contains(x));
            if fs(x) == fs(id) {
                assert(x == id);
            }
        }
        lemma_walk_renamed(p1, st1, p2, st2, ft, fs, t, p1[k], w1, w2);
    } else {
    }
}

/// A renamed span belongs by its ancestors to the same turn among the renamed spans.
pub proof fn lemma_ancestor_same(
    s1: Seq<RawSpanView>,
    s2: Seq<RawSpanView>,
    ft: spec_fn(Seq<char>) -> Seq<char>,
    fs: spec_fn(Seq<char>) -> Seq<char>,
    x: RawSpanView,
)
    requires
        renamed(s1, s2, ft, fs),
        renaming_ok(ft, fs),
    ensures
        spec_ancestor_turn(s2, rename_span(x, ft, fs)) == spec_ancestor_turn(s1, x),
{
    lemma_parents_renamed(s1, s2, ft, fs);
    lemma_starts_renamed(s1, s2, ft, fs);
    lemma_entries_map_finite(parent_entries(s1));
    lemma_entries_map_finite(parent_entries(s2));
    let id = |v: Seq<char>| v;
    assert forall|k: Key| #[trigger] lookup(spec_parents(s2), rename_key(k, ft, fs)) == opt_apply(lookup(spec_parents(s1), k), fs) by {
        lemma_lookup_renamed(parent_entries(s1), ft, fs, fs, k);
    }
    assert forall|k: Key| #[trigger] lookup(spec_starts(s2), rename_key(k, ft, fs)) == lookup(spec_starts(s1), k) by {
        lemma_lookup_renamed(start_entries(s1), ft, fs, id, k);
        assert(opt_apply(lookup(spec_starts(s1), k), id) == lookup(spec_starts(s1), k));
    }
    let e1 = Set::<Seq<char>>::empty();
    assert forall|y: Seq<char>| #[trigger] e1.contains(fs(y)) <==> e1.contains(y) by {}
    lemma_walk_renamed(spec_parents(s1), spec_starts(s1), spec_parents(s2), spec_starts(s2), ft, fs, x.trace_id, x.span_id, e1, e1);
}

// ---------------------------------------------------------------------------
// What is read through the links
// ---------------------------------------------------------------------------

proof fn lemma_sessions_same(
    s1: Seq<RawSpanView>,
    s2: Seq<RawSpanView>,
    ft: spec_fn(Seq<char>) -> Seq<char>,
    fs: spec_fn(Seq<char>) -> Seq<char>,
    p1: Seq<RawSpanView>,
    p2: Seq<RawSpanView>,
)
    requires
        renamed(s1, s2, ft, fs),
        renamed(p1, p2, ft, fs),
        renaming_ok(ft, fs),
    ensures
        session_obs_of(s2, p2) == session_obs_of(s1, p1),
    decreases p1.len(),
{
    if p1.len() > 0 {
        lemma_renamed_prefix(p1, p2, ft, fs);
        lemma_sessions_same(s1, s2, ft, fs, p1.drop_last(), p2.drop_last());
        lemma_ancestor_same(s1, s2, ft, fs, p1.last());
    }
}

proof fn lemma_prompts_same(
    s1: Seq<RawSpanView>,
    s2: Seq<RawSpanView>,
    ft: spec_fn(Seq<char>) -> Seq<char>,
    fs: spec_fn(Seq<char>) -> Seq<char>,
    p1: Seq<RawSpanView>,
    p2: Seq<RawSpanView>,
)
    requires
        renamed(s1, s2, ft, fs),
        renamed(p1, p2, ft, fs),
        renaming_ok(ft, fs),
    ensures
        prompt_obs_of(s2, p2) == prompt_obs_of(s1, p1),
    decreases p1.len(),
{
    if p1.len() > 0 {
        lemma_renamed_prefix(p1, p2, ft, fs);
        lemma_prompts_same(s1, s2, ft, fs, p1.drop_last(), p2.drop_last());
        lemma_ancestor_same(s1, s2, ft, fs, p1.last());
    }
}

/// Every turn has the same session and extras among the renamed spans.
proof fn lemma_turn_facts_same(s1: Seq<RawSpanView>, s2: Seq<RawSpanView>, ft: spec_fn(Seq<char>) -> Seq<char>, fs: spec_fn(Seq<char>) -> Seq<char>)
    requires
        renamed(s1, s2, ft, fs),
        renaming_ok(ft, fs),
    ensures
        forall|t: Seq<char>| #[trigger] spec_turn_session(s2, t) == spec_turn_session(s1, t),
        forall|t: Seq<char>| #[trigger] spec_full_extras(s2, t) == spec_full_extras(s1, t),
{
    lemma_sessions_same(s1, s2, ft, fs, s1, s2);
    lemma_prompts_same(s1, s2, ft, fs, s1, s2);
    assert forall|t: Seq<char>| #[trigger] spec_full_extras(s2, t) == spec_full_extras(s1, t) by {
        lemma_sampling_same(s1, s2, ft, fs, t, "model"@);
        lemma_sampling_same(s1, s2, ft, fs, t, "cwd"@);
        lemma_ttft_same(s1, s2, ft, fs, t);
    }
}

proof fn lemma_canonical_same(
    s1: Seq<RawSpanView>,
    s2: Seq<RawSpanView>,
    ft: spec_fn(Seq<char>) -> Seq<char>,
    fs: spec_fn(Seq<char>) -> Seq<char>,
    x: RawSpanView,
)
    requires
        forall|t: Seq<char>| #[trigger] spec_turn_session(s2, t) == spec_turn_session(s1, t),
        forall|t: Seq<char>| #[trigger] spec_full_extras(s2, t) == spec_full_extras(s1, t),
    ensures
        spec_canonical_turn(s2, rename_span(x, ft, fs)) == spec_canonical_turn(s1, x),
{
    lemma_input_same(x, ft, fs, "turn.id"@);
    lemma_input_same(x, ft, fs, "model"@);
    lemma_input_same(x, ft, fs, "codex.turn.reasoning_effort"@);
    lemma_input_same(x, ft, fs, "codex.turn.token_usage.input_tokens"@);
    lemma_input_same(x, ft, fs, "codex.turn.token_usage.cached_input_tokens"@);
    lemma_input_same(x, ft, fs, "codex.turn.token_usage.output_tokens"@);
    lemma_input_same(x, ft, fs, "codex.turn.token_usage.reasoning_output_tokens"@);
    lemma_input_same(x, ft, fs, "codex.turn.token_usage.total_tokens"@);
}

proof fn lemma_turn_candidates_same(
    s1: Seq<RawSpanView>,
    s2: Seq<RawSpanView>,
    ft: spec_fn(Seq<char>) -> Seq<char>,
    fs: spec_fn(Seq<char>) -> Seq<char>,
    p1: Seq<RawSpanView>,
    p2: Seq<RawSpanView>,
)
    requires
        renamed(p1, p2, ft, fs),
        forall|t: Seq<char>| #[trigger] spec_turn_session(s2, t) == spec_turn_session(s1, t),
        forall|t: Seq<char>| #[trigger] spec_full_extras(s2, t) == spec_full_extras(s1, t),
    ensures
        turn_candidates_of(s2, p2) == turn_candidates_of(s1, p1),
    decreases p1.len(),
{
    if p1.len() > 0 {
        lemma_renamed_prefix(p1, p2, ft, fs);
        lemma_turn_candidates_same(s1, s2, ft, fs, p1.drop_last(), p2.drop_last());
        lemma_canonical_same(s1, s2, ft, fs, p1.last());
    }
}

proof fn lemma_events_tools_same(
    s1: Seq<RawSpanView>,
    s2: Seq<RawSpanView>,
    ft: spec_fn(Seq<char>) -> Seq<char>,
    fs: spec_fn(Seq<char>) -> Seq<char>,
    x: RawSpanView,
    events: Seq<RawEventView>,
    canonical: Set<Key>,
)
    requires
        spec_mcp_links(s2) == spec_mcp_links(s1),
        spec_ancestor_turn(s2, rename_span(x, ft, fs)) == spec_ancestor_turn(s1, x),
    ensures
        events_tools(s2, rename_span(x, ft, fs), events, canonical) == events_tools(s1, x, events, canonical),
    decreases events.len(),
{
    if events.len() > 0 {
        lemma_events_tools_same(s1, s2, ft, fs, x, events.drop_last(), canonical);
    }
}

proof fn lemma_tool_candidates_same(
    s1: Seq<RawSpanView>,
    s2: Seq<RawSpanView>,
    ft: spec_fn(Seq<char>) -> Seq<char>,
    fs: spec_fn(Seq<char>) -> Seq<char>,
    p1: Seq<RawSpanView>,
    p2: Seq<RawSpanView>,
    canonical: Set<Key>,
)
    requires
        renamed(s1, s2, ft, fs),
        renamed(p1, p2, ft, fs),
        renaming_ok(ft, fs),
        spec_mcp_links(s2) == spec_mcp_links(s1),
    ensures
        tool_candidates_of(s2, p2, canonical) == tool_candidates_of(s1, p1, canonical),
    decreases p1.len(),
{
    if p1.len() > 0 {
        lemma_renamed_prefix(p1, p2, ft, fs);
        lemma_tool_candidates_same(s1, s2, ft, fs, p1.drop_last(), p2.drop_last(), canonical);
        lemma_ancestor_same(s1, s2, ft, fs, p1.last());
        lemma_events_tools_same(s1, s2, ft, fs, p1.last(), p1.last().events, canonical);
    }
}

/// A renaming of ids changes nothing that a compilation must be.
pub proof fn lemma_compiles_to_renamed(
    s1: Seq<RawSpanView>,
    s2: Seq<RawSpanView>,
    ft: spec_fn(Seq<char>) -> Seq<char>,
    fs: spec_fn(Seq<char>) -> Seq<char>,
    c: CompiledTelemetry,
)
    requires
        renamed(s1, s2, ft, fs),
        renaming_ok(ft, fs),
    ensures
        compiles_to(s2, c) == compiles_to(s1, c),
{
    lemma_mcp_same(s1, s2, ft, fs);
    lemma_unknown_obs_same(s1, s2, ft, fs);
    lemma_turn_facts_same(s1, s2, ft, fs);
    lemma_turn_candidates_same(s1, s2, ft, fs, s1, s2);
    assert(turn_candidates(s2) == turn_candidates(s1));
    lemma_tool_candidates_same(s1, s2, ft, fs, s1, s2, turn_key_set(turn_candidates(s1)));
    assert(tool_candidates(s2) == tool_candidates(s1));
    assert(compiled_sessions(s2) =~= compiled_sessions(s1));
}

/// Renaming every trace id one for one, and every span and parent id one for
/// one (an empty parent id staying empty), changes no compilation: the
/// sessions, turns, tool calls and unknown telemetry are the same.
pub proof fn law_renaming_ids_does_not_change_compilation(
    s1: Seq<RawSpanView>,
    s2: Seq<RawSpanView>,
    ft: spec_fn(Seq<char>) -> Seq<char>,
    fs: spec_fn(Seq<char>) -> Seq<char>,
    c1: CompiledTelemetry,
    c2: CompiledTelemetry,
)
    requires
        renaming_ok(ft, fs),
        renamed(s1, s2, ft, fs),
        compiles_to(s1, c1),
        compiles_to(s2, c2),
    ensures
        strings_view(c1.sessions@) == strings_view(c2.sessions@),
        turns_view(c1.turns@) == turns_view(c2.turns@),
        tools_view(c1.tool_calls@) == tools_view(c2.tool_calls@),
        unknown_view(c1.unknown@) == unknown_view(c2.unknown@),
{
    lemma_compiles_to_renamed(s1, s2, ft, fs, c2);
    law_compilation_is_determined(s1, c1, c2);
}

// ---------------------------------------------------------------------------
// Renaming the byte ids of a request
// ---------------------------------------------------------------------------

proof fn lemma_hex_len(b: Seq<u8>)
    ensures
        hex_text(b).len() == 2 * b.len(),
    decreases b.len(),
{
    if b.len() > 0 {
        lemma_hex_len(b.drop_last());
    }
}

proof fn lemma_hex_digit_injective(n: nat, m: nat)
    requires
        n < 16,
        m < 16,
        hex_digit(n) == hex_digit(m),
    ensures
        n == m,
{
}

/// Hex text tells bytes apart.
pub proof fn lemma_hex_injective(a: Seq<u8>, b: Seq<u8>)
    requires
        hex_text(a) == hex_text(b),
    ensures
        a == b,
    decreases a.len(),
{
    lemma_hex_len(a);
    lemma_hex_len(b);
    if a.len() > 0 {
        let x = hex_text(a);
        let n = x.len();
        let pa = a.drop_last();
        let pb = b.drop_last();
        lemma_hex_len(pa);
        lemma_hex_len(pb);
        assert(hex_text(pa) =~= x.subrange(0, n - 2));
        assert(hex_text(pb) =~= x.subrange(0, n - 2));
        lemma_hex_injective(pa, pb);
        let u = a.last();
        let v = b.last();
        assert(x[n - 2] == hex_digit((u / 16) as nat));
        assert(x[n - 2] == hex_digit((v / 16) as nat));
        assert(x[n - 1] == hex_digit((u % 16) as nat));
        assert(x[n - 1] == hex_digit((v % 16) as nat));
        lemma_hex_digit_injective((u / 16) as nat, (v / 16) as nat);
        lemma_hex_digit_injective((u % 16) as nat, (v % 16) as nat);
        assert(u == v);
        assert(a =~= pa.push(u));
        assert(b =~= pb.push(v));
    }
}

pub open spec fn is_hex(x: Seq<char>) -> bool {
    exists|b: Seq<u8>| #[trigger] hex_text(b) == x
}

/// A renaming of byte ids, carried over to their hex text; other text stays.
pub open spec fn hex_renaming(g: spec_fn(Seq<u8>) -> Seq<u8>) -> spec_fn(Seq<char>) -> Seq<char> {
    |x: Seq<char>| if is_hex(x) { hex_text(g(choose|b: Seq<u8>| #[trigger] hex_text(b) == x)) } else { x }
}

pub open spec fn bytes_injective(g: spec_fn(Seq<u8>) -> Seq<u8>) -> bool {
    forall|a: Seq<u8>, b: Seq<u8>| #[trigger] g(a) == #[trigger] g(b) ==> a == b
}

proof fn lemma_hex_renaming_at(g: spec_fn(Seq<u8>) -> Seq<u8>, b: Seq<u8>)
    ensures
        hex_renaming(g)(hex_text(b)) == hex_text(g(b)),
{
    let x = hex_text(b);
    assert(is_hex(x));
    let c = choose|c: Seq<u8>| #[trigger] hex_text(c) == x;
    lemma_hex_injective(c, b);
}

proof fn lemma_hex_renaming_injective(g: spec_fn(Seq<u8>) -> Seq<u8>)
    requires
        bytes_injective(g),
    ensures
        injective(hex_renaming(g)),
{
    let f = hex_renaming(g);
    assert forall|x: Seq<char>, y: Seq<char>| #[trigger] f(x) == #[trigger] f(y) implies x == y by {
        if is_hex(x) {
            let bx = choose|c: Seq<u8>| #[trigger] hex_text(c) == x;
            lemma_hex_renaming_at(g, bx);
            if is_hex(y) {
                let by = choose|c: Seq<u8>| #[trigger] hex_text(c) == y;
                lemma_hex_renaming_at(g, by);
                lemma_hex_injective(g(bx), g(by));
            } else {
                assert(hex_text(g(bx)) == y);
                assert(is_hex(y));
            }
        } else if is_hex(y) {
            let by = choose|c: Seq<u8>| #[trigger] hex_text(c) == y;
            lemma_hex_renaming_at(g, by);
            assert(hex_text(g(by)) == x);
            assert(is_hex(x));
        }
    }
}

proof fn lemma_hex_renaming_empty(g: spec_fn(Seq<u8>) -> Seq<u8>)
    requires
        forall|b: Seq<u8>| (#[trigger] g(b)).len() == 0 <==> b.len() == 0,
    ensures
        forall|x: Seq<char>| (#[trigger] hex_renaming(g)(x)).len() == 0 <==> x.len() == 0,
{
    assert forall|x: Seq<char>| (#[trigger] hex_renaming(g)(x)).len() == 0 <==> x.len() == 0 by {
        if is_hex(x) {
            let b = choose|c: Seq<u8>| #[trigger] hex_text(c) == x;
            lemma_hex_renaming_at(g, b);
            lemma_hex_len(b);
            lemma_hex_len(g(b));
        } else {
            assert(hex_text(Seq::<u8>::empty()) =~= Seq::<char>::empty());
            if x.len() == 0 {
                assert(x =~= hex_text(Seq::<u8>::empty()));
            }
        }
    }
}

/// Span `b` is span `a` with its trace id renamed by `gt` and its span and
/// parent ids by `gs`, all else the same.
pub open spec fn span_ids_renamed(a: OtlpSpan, b: OtlpSpan, gt: spec_fn(Seq<u8>) -> Seq<u8>, gs: spec_fn(Seq<u8>) -> Seq<u8>) -> bool {
    &&& b.trace_id@ == gt(a.trace_id@)
    &&& b.span_id@ == gs(a.span_id@)
    &&& b.parent_span_id@ == gs(a.parent_span_id@)
    &&& b.name == a.name
    &&& b.start_time_unix_nano == a.start_time_unix_nano
    &&& b.end_time_unix_nano == a.end_time_unix_nano
    &&& b.attributes == a.attributes
    &&& b.events == a.events
}

/// Two requests whose spans, in order, differ only by a one-for-one renaming
/// of trace ids and a one-for-one renaming of span and parent ids (an empty id
/// staying empty), however the spans are grouped into resources and scopes,
/// compile to the same sessions, turns, tool calls and unknown telemetry.
pub proof fn law_renaming_request_ids_does_not_change_compilation(
    r1: OtlpRequest,
    r2: OtlpRequest,
    gt: spec_fn(Seq<u8>) -> Seq<u8>,
    gs: spec_fn(Seq<u8>) -> Seq<u8>,
    c1: CompiledTelemetry,
    c2: CompiledTelemetry,
)
    requires
        bytes_injective(gt),
        bytes_injective(gs),
        forall|b: Seq<u8>| (#[trigger] gs(b)).len() == 0 <==> b.len() == 0,
        resource_list_spans(r1.resource_spans@).len() == resource_list_spans(r2.resource_spans@).len(),
        forall|i: int| 0 <= i < resource_list_spans(r1.resource_spans@).len() ==> span_ids_renamed(
            #[trigger] resource_list_spans(r1.resource_spans@)[i],
            resource_list_spans(r2.resource_spans@)[i],
            gt,
            gs,
        ),
        compiles_to(spec_raw_spans(r1), c1),
        compiles_to(spec_raw_spans(r2), c2),
    ensures
        strings_view(c1.sessions@) == strings_view(c2.sessions@),
        turns_view(c1.turns@) == turns_view(c2.turns@),
        tools_view(c1.tool_calls@) == tools_view(c2.tool_calls@),
        unknown_view(c1.unknown@) == unknown_view(c2.unknown@),
{
    let ft = hex_renaming(gt);
    let fs = hex_renaming(gs);
    lemma_hex_renaming_injective(gt);
    lemma_hex_renaming_injective(gs);
    lemma_hex_renaming_empty(gs);
    let l1 = resource_list_spans(r1.resource_spans@);
    let l2 = resource_list_spans(r2.resource_spans@);
    let s1 = spec_raw_spans(r1);
    let s2 = spec_raw_spans(r2);
    assert forall|i: int| 0 <= i < s1.len() implies #[trigger] s2[i] == rename_span(s1[i], ft, fs) by {
        let a = l1[i];
        let b = l2[i];
        assert(span_ids_renamed(a, b, gt, gs));
        assert(s1[i] == spec_raw_span(a));
        assert(s2[i] == spec_raw_span(b));
        lemma_hex_renaming_at(gt, a.trace_id@);
        lemma_hex_renaming_at(gs, a.span_id@);
        lemma_hex_renaming_at(gs, a.parent_span_id@);
        assert(b.events@ == a.events@);
        assert(b.attributes@ == a.attributes@);
        assert(spec_raw_span(b) == rename_span(spec_raw_span(a), ft, fs));
    }
    law_renaming_ids_does_not_change_compilation(s1, s2, ft, fs, c1, c2);
}

} // verus!
