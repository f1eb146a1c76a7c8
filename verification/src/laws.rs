//! What holds of every compilation: which tool result is kept per key, what an
//! unknown-telemetry count counts, and that classified telemetry is never
//! counted as unknown.
use vstd::prelude::*;

use crate::collect::{tool_key, tool_step, turn_key, turns_with_key};
use crate::compile::{
    spec_canonical_turn, turn_candidates_of,
    event_tool, events_tools, spec_resolve_turn, tool_candidates_of, event_unknown_obs, events_unknown_obs, span_head_obs, tool_aggregate, unknown_aggregate, unknown_obs, UnknownObs,
};
use crate::entries::lookup;
use crate::links::spec_mcp_links;
use crate::model::{TelemetryKind, ToolCallView, TurnView, UnknownView};
use crate::otlp::OtlpRequest;
use crate::raw::{resource_list_spans, spec_raw_event, spec_raw_span, spec_raw_spans};
use crate::read::spec_input_value;
use crate::links::spec_ancestor_turn;
use crate::turn_info::{
    event_prompt_obs, events_last_ttft, events_prompt_obs, prompt_obs, prompt_obs_of, spec_turn_prompt_length,
    spec_turn_ttft,
};
use crate::value::and_then_string;
use crate::order::{key_lt, lemma_key_asymmetric, Key};
use crate::raw::{RawEventView, RawSpanView};
use crate::unknown::{lists_unknown, max_i64, min_i64, record_step, unknown_key, spec_discarded_event, spec_known_span, UnknownKey};

verus! {

// ---------------------------------------------------------------------------
// Tool calls: one per key, the latest result
// ---------------------------------------------------------------------------

/// A key is kept exactly when some result has it.
pub proof fn lemma_tool_dom(results: Seq<ToolCallView>, k: Key)
    ensures
        tool_aggregate(results).dom().contains(k) <==> exists|i: int| 0 <= i < results.len() && tool_key(#[trigger] results[i]) == k,
    decreases results.len(),
{
    if results.len() > 0 {
        let prev = results.drop_last();
        let n = results.len() - 1;
        lemma_tool_dom(prev, k);
        assert(results[n] == results.last());
        if exists|i: int| 0 <= i < results.len() && tool_key(#[trigger] results[i]) == k {
            let i = choose|i: int| 0 <= i < results.len() && tool_key(#[trigger] results[i]) == k;
            if i < n {
                assert(prev[i] == results[i]);
            }
        }
        if exists|i: int| 0 <= i < prev.len() && tool_key(#[trigger] prev[i]) == k {
            let i = choose|i: int| 0 <= i < prev.len() && tool_key(#[trigger] prev[i]) == k;
            assert(prev[i] == results[i]);
        }
    }
}

/// Of the tool results of one key, the kept one is result `i`: completed no
/// earlier than any other result of that key, and later than each of them
/// that came before it.
#[verifier::spinoff_prover]
pub proof fn law_kept_tool_call_is_latest(results: Seq<ToolCallView>, k: Key) -> (i: int)
    requires
        tool_aggregate(results).dom().contains(k),
    ensures
        0 <= i < results.len(),
        results[i] == tool_aggregate(results)[k],
        tool_key(results[i]) == k,
        forall|j: int| 0 <= j < results.len() && tool_key(#[trigger] results[j]) == k ==> results[j].completed_at <= results[i].completed_at,
        forall|j: int| 0 <= j < i && tool_key(#[trigger] results[j]) == k ==> results[j].completed_at < results[i].completed_at,
    decreases results.len(),
{
    let prev = results.drop_last();
    let last = results.last();
    let n = results.len() - 1;
    let before = tool_aggregate(prev);
    assert(tool_aggregate(results) == tool_step(before, last));
    assert(results[n] == last);
    lemma_tool_dom(prev, k);
    if before.dom().contains(k) && (tool_key(last) != k || before[k].completed_at >= last.completed_at) {
        let i = law_kept_tool_call_is_latest(prev, k);
        assert(tool_aggregate(results)[k] == before[k]);
        assert(results[i] == prev[i]);
        assert forall|j: int| 0 <= j < results.len() && tool_key(#[trigger] results[j]) == k implies results[j].completed_at <= results[i].completed_at by {
            if j < n {
                assert(results[j] == prev[j]);
            }
        }
        assert forall|j: int| 0 <= j < i && tool_key(#[trigger] results[j]) == k implies results[j].completed_at < results[i].completed_at by {
            assert(results[j] == prev[j]);
        }
        i
    } else {
        assert(tool_key(last) == k);
        assert(tool_aggregate(results)[k] == last);
        if before.dom().contains(k) {
            let p = law_kept_tool_call_is_latest(prev, k);
            assert forall|j: int| 0 <= j < n && tool_key(#[trigger] results[j]) == k implies results[j].completed_at < last.completed_at by {
                assert(results[j] == prev[j]);
            }
        } else {
            assert forall|j: int| 0 <= j < n implies tool_key(#[trigger] results[j]) != k by {
                assert(results[j] == prev[j]);
            }
        }
        n
    }
}

// ---------------------------------------------------------------------------
// Unknown telemetry: counts, first and last sightings
// ---------------------------------------------------------------------------

pub open spec fn obs_key(o: UnknownObs) -> UnknownKey {
    (o.0, o.1)
}

/// The number of sightings of `key`.
pub open spec fn count_obs(obs: Seq<UnknownObs>, key: UnknownKey) -> nat
    decreases obs.len(),
{
    if obs.len() == 0 {
        0
    } else {
        count_obs(obs.drop_last(), key) + if obs_key(obs.last()) == key { 1nat } else { 0nat }
    }
}

proof fn lemma_count_obs_bound(obs: Seq<UnknownObs>, key: UnknownKey)
    ensures
        count_obs(obs, key) <= obs.len(),
    decreases obs.len(),
{
    if obs.len() > 0 {
        lemma_count_obs_bound(obs.drop_last(), key);
    }
}

proof fn lemma_count_obs_zero(obs: Seq<UnknownObs>, key: UnknownKey)
    requires
        forall|i: int| 0 <= i < obs.len() ==> obs_key(#[trigger] obs[i]) != key,
    ensures
        count_obs(obs, key) == 0,
    decreases obs.len(),
{
    if obs.len() > 0 {
        let prev = obs.drop_last();
        assert(obs.last() == obs[obs.len() - 1]);
        assert forall|i: int| 0 <= i < prev.len() implies obs_key(#[trigger] prev[i]) != key by {
            assert(prev[i] == obs[i]);
        }
        lemma_count_obs_zero(prev, key);
    }
}

/// A sighted `(kind, name)` is counted at least once.
pub proof fn lemma_count_obs_positive(obs: Seq<UnknownObs>, key: UnknownKey, i: int)
    requires
        0 <= i < obs.len(),
        obs_key(obs[i]) == key,
    ensures
        count_obs(obs, key) >= 1,
    decreases obs.len(),
{
    if i < obs.len() - 1 {
        assert(obs.drop_last()[i] == obs[i]);
        lemma_count_obs_positive(obs.drop_last(), key, i);
    } else {
        assert(obs.last() == obs[i]);
    }
}

/// A `(kind, name)` has an entry exactly when it was sighted.
pub proof fn lemma_unknown_dom(obs: Seq<UnknownObs>, key: UnknownKey)
    ensures
        unknown_aggregate(obs).dom().contains(key) <==> exists|i: int| 0 <= i < obs.len() && obs_key(#[trigger] obs[i]) == key,
    decreases obs.len(),
{
    if obs.len() > 0 {
        let prev = obs.drop_last();
        let n = obs.len() - 1;
        lemma_unknown_dom(prev, key);
        assert(obs[n] == obs.last());
        if exists|i: int| 0 <= i < obs.len() && obs_key(#[trigger] obs[i]) == key {
            let i = choose|i: int| 0 <= i < obs.len() && obs_key(#[trigger] obs[i]) == key;
            if i < n {
                assert(prev[i] == obs[i]);
            }
        }
        if exists|i: int| 0 <= i < prev.len() && obs_key(#[trigger] prev[i]) == key {
            let i = choose|i: int| 0 <= i < prev.len() && obs_key(#[trigger] prev[i]) == key;
            assert(prev[i] == obs[i]);
        }
    }
}

/// The entry of a sighted `(kind, name)` names it, counts its sightings, and
/// spans them: its first timestamp is that of sighting `w.0`, its last that of
/// sighting `w.1`, and every sighting of it lies between the two.
#[verifier::spinoff_prover]
pub proof fn law_unknown_counts_sightings(obs: Seq<UnknownObs>, key: UnknownKey) -> (w: (int, int))
    requires
        obs.len() < i64::MAX,
        unknown_aggregate(obs).dom().contains(key),
    ensures
        unknown_aggregate(obs)[key].kind == key.0,
        unknown_aggregate(obs)[key].name == key.1,
        unknown_aggregate(obs)[key].count == count_obs(obs, key),
        forall|i: int| 0 <= i < obs.len() && obs_key(#[trigger] obs[i]) == key
            ==> unknown_aggregate(obs)[key].first_seen <= obs[i].2 <= unknown_aggregate(obs)[key].last_seen,
        0 <= w.0 < obs.len(),
        obs_key(obs[w.0]) == key,
        obs[w.0].2 == unknown_aggregate(obs)[key].first_seen,
        0 <= w.1 < obs.len(),
        obs_key(obs[w.1]) == key,
        obs[w.1].2 == unknown_aggregate(obs)[key].last_seen,
    decreases obs.len(),
{
    let prev = obs.drop_last();
    let last = obs.last();
    let n = obs.len() - 1;
    let before = unknown_aggregate(prev);
    let after = unknown_aggregate(obs);
    assert(after == record_step(before, last.1, last.0, last.2));
    assert(obs[n] == last);
    lemma_unknown_dom(prev, key);
    lemma_count_obs_bound(prev, key);
    if obs_key(last) != key {
        let w = law_unknown_counts_sightings(prev, key);
        assert(after[key] == before[key]);
        assert(obs[w.0] == prev[w.0]);
        assert(obs[w.1] == prev[w.1]);
        assert forall|i: int| 0 <= i < obs.len() && obs_key(#[trigger] obs[i]) == key
            implies after[key].first_seen <= obs[i].2 <= after[key].last_seen by {
            if i < n {
                assert(obs[i] == prev[i]);
            }
        }
        w
    } else if before.dom().contains(key) {
        let w = law_unknown_counts_sightings(prev, key);
        let u = before[key];
        let v = after[key];
        assert(v.count == u.count + 1);
        assert(v.first_seen == min_i64(u.first_seen, last.2));
        assert(v.last_seen == max_i64(u.last_seen, last.2));
        assert(obs[w.0] == prev[w.0]);
        assert(obs[w.1] == prev[w.1]);
        assert forall|i: int| 0 <= i < obs.len() && obs_key(#[trigger] obs[i]) == key
            implies v.first_seen <= obs[i].2 <= v.last_seen by {
            if i < n {
                assert(obs[i] == prev[i]);
            }
        }
        let a = if last.2 < u.first_seen { n } else { w.0 };
        let b = if last.2 > u.last_seen { n } else { w.1 };
        (a, b)
    } else {
        let v = after[key];
        assert forall|i: int| 0 <= i < n implies obs_key(#[trigger] obs[i]) != key by {
            assert(obs[i] == prev[i]);
            if obs_key(obs[i]) == key {
                assert(obs_key(prev[i]) == key);
            }
        }
        assert forall|i: int| 0 <= i < prev.len() implies obs_key(#[trigger] prev[i]) != key by {
            assert(obs[i] == prev[i]);
        }
        lemma_count_obs_zero(prev, key);
        assert forall|i: int| 0 <= i < obs.len() && obs_key(#[trigger] obs[i]) == key
            implies v.first_seen <= obs[i].2 <= v.last_seen by {
            if i < n {
                assert(obs[i] == prev[i]);
            }
        }
        (n, n)
    }
}

// ---------------------------------------------------------------------------
// Classified telemetry is never unknown
// ---------------------------------------------------------------------------

/// A sighting names telemetry that no rule classifies.
pub open spec fn unclassified(o: UnknownObs) -> bool {
    &&& o.0 == TelemetryKind::Span ==> !spec_known_span(o.1)
    &&& o.0 == TelemetryKind::Event ==> o.1 != "codex.tool_result"@ && o.1 != "codex.turn_ttft"@
        && o.1 != "codex.user_prompt"@ && !spec_discarded_event(o.1)
}

pub open spec fn all_unclassified(obs: Seq<UnknownObs>) -> bool {
    forall|i: int| 0 <= i < obs.len() ==> unclassified(#[trigger] obs[i])
}

proof fn lemma_concat_unclassified(a: Seq<UnknownObs>, b: Seq<UnknownObs>)
    requires
        all_unclassified(a),
        all_unclassified(b),
    ensures
        all_unclassified(a + b),
{
    assert forall|i: int| 0 <= i < (a + b).len() implies unclassified(#[trigger] (a + b)[i]) by {
        if i < a.len() {
            assert((a + b)[i] == a[i]);
        } else {
            assert((a + b)[i] == b[i - a.len()]);
        }
    }
}

proof fn lemma_events_unclassified(events: Seq<RawEventView>)
    ensures
        all_unclassified(events_unknown_obs(events)),
    decreases events.len(),
{
    if events.len() > 0 {
        lemma_events_unclassified(events.drop_last());
        lemma_concat_unclassified(events_unknown_obs(events.drop_last()), event_unknown_obs(events.last()));
    }
}

pub proof fn lemma_spans_unclassified(spans: Seq<RawSpanView>)
    ensures
        all_unclassified(unknown_obs(spans)),
    decreases spans.len(),
{
    if spans.len() > 0 {
        let s = spans.last();
        lemma_spans_unclassified(spans.drop_last());
        lemma_events_unclassified(s.events);
        lemma_concat_unclassified(unknown_obs(spans.drop_last()), span_head_obs(s));
        lemma_concat_unclassified(unknown_obs(spans.drop_last()) + span_head_obs(s), events_unknown_obs(s.events));
    }
}

/// No span of a known name, and no tool result, time to first token, user
/// prompt or discarded event, is ever counted as unknown telemetry.
pub proof fn law_classified_telemetry_is_not_unknown(spans: Seq<RawSpanView>, key: UnknownKey)
    requires
        unknown_aggregate(unknown_obs(spans)).dom().contains(key),
    ensures
        key.0 == TelemetryKind::Span ==> !spec_known_span(key.1),
        key.0 == TelemetryKind::Event ==> key.1 != "codex.tool_result"@ && key.1 != "codex.turn_ttft"@
            && key.1 != "codex.user_prompt"@ && !spec_discarded_event(key.1),
{
    let obs = unknown_obs(spans);
    lemma_unknown_dom(obs, key);
    lemma_spans_unclassified(spans);
    let i = choose|i: int| 0 <= i < obs.len() && obs_key(#[trigger] obs[i]) == key;
    assert(unclassified(obs[i]));
}

// ---------------------------------------------------------------------------
// Turns and tool calls of a compilation
// ---------------------------------------------------------------------------

/// A tool call is linked to a turn only by an explicit key: the turn that an
/// MCP call names for the tool's key, or a canonical turn of the tool's session.
pub open spec fn linked_by_key(spans: Seq<RawSpanView>, canonical: Set<Key>, t: ToolCallView) -> bool {
    match t.turn_id {
        Some(turn) => lookup(spec_mcp_links(spans), (t.session_id, t.id)) == Some(turn)
            || canonical.contains((t.session_id, turn)),
        None => true,
    }
}

pub open spec fn all_linked_by_key(spans: Seq<RawSpanView>, canonical: Set<Key>, tools: Seq<ToolCallView>) -> bool {
    forall|i: int| 0 <= i < tools.len() ==> linked_by_key(spans, canonical, #[trigger] tools[i])
}

proof fn lemma_concat_linked(spans: Seq<RawSpanView>, canonical: Set<Key>, a: Seq<ToolCallView>, b: Seq<ToolCallView>)
    requires
        all_linked_by_key(spans, canonical, a),
        all_linked_by_key(spans, canonical, b),
    ensures
        all_linked_by_key(spans, canonical, a + b),
{
    assert forall|i: int| 0 <= i < (a + b).len() implies linked_by_key(spans, canonical, #[trigger] (a + b)[i]) by {
        if i < a.len() {
            assert((a + b)[i] == a[i]);
        } else {
            assert((a + b)[i] == b[i - a.len()]);
        }
    }
}

proof fn lemma_events_linked(all: Seq<RawSpanView>, span: RawSpanView, events: Seq<RawEventView>, canonical: Set<Key>)
    ensures
        all_linked_by_key(all, canonical, events_tools(all, span, events, canonical)),
    decreases events.len(),
{
    if events.len() > 0 {
        let prev = events.drop_last();
        lemma_events_linked(all, span, prev, canonical);
        let last = match event_tool(all, span, events.last(), canonical) {
            Some(t) => seq![t],
            None => Seq::empty(),
        };
        assert(all_linked_by_key(all, canonical, last)) by {
            if last.len() > 0 {
                let t = last[0];
                assert(t.turn_id == spec_resolve_turn(all, span, t.session_id, t.id, canonical));
            }
        }
        lemma_concat_linked(all, canonical, events_tools(all, span, prev, canonical), last);
    }
}

/// Every tool result of the spans is linked to a turn only by an explicit key.
pub proof fn lemma_tool_candidates_linked(all: Seq<RawSpanView>, spans: Seq<RawSpanView>, canonical: Set<Key>)
    ensures
        all_linked_by_key(all, canonical, tool_candidates_of(all, spans, canonical)),
    decreases spans.len(),
{
    if spans.len() > 0 {
        let s = spans.last();
        lemma_tool_candidates_linked(all, spans.drop_last(), canonical);
        lemma_events_linked(all, s, s.events, canonical);
        lemma_concat_linked(all, canonical, tool_candidates_of(all, spans.drop_last(), canonical), events_tools(all, s, s.events, canonical));
    }
}

/// A turn of a sequence is among the turns of its key.
pub proof fn lemma_turn_with_own_key(v: Seq<TurnView>, i: int)
    requires
        0 <= i < v.len(),
    ensures
        turns_with_key(v, turn_key(v[i])).contains(v[i]),
    decreases v.len(),
{
    let n = v.len() - 1;
    let k = turn_key(v[i]);
    if i == n {
        let a = turns_with_key(v.drop_last(), k);
        assert(turns_with_key(v, k) == a + seq![v[i]]);
        assert((a + seq![v[i]])[a.len() as int] == v[i]);
    } else {
        assert(v.drop_last()[i] == v[i]);
        lemma_turn_with_own_key(v.drop_last(), i);
        let a = turns_with_key(v.drop_last(), k);
        let j = choose|j: int| 0 <= j < a.len() && a[j] == v[i];
        let b = if turn_key(v.last()) == k { seq![v.last()] } else { Seq::<TurnView>::empty() };
        assert(turns_with_key(v, k) == a + b);
        assert((a + b)[j] == v[i]);
    }
}

/// The turns of a key are turns of the sequence.
pub proof fn lemma_turn_of_key_is_member(v: Seq<TurnView>, k: Key, x: TurnView)
    requires
        turns_with_key(v, k).contains(x),
    ensures
        v.contains(x),
    decreases v.len(),
{
    let a = turns_with_key(v.drop_last(), k);
    let b = if turn_key(v.last()) == k { seq![v.last()] } else { Seq::<TurnView>::empty() };
    assert(turns_with_key(v, k) == a + b);
    let j = choose|j: int| 0 <= j < (a + b).len() && (a + b)[j] == x;
    if j < a.len() {
        assert((a + b)[j] == a[j]);
        lemma_turn_of_key_is_member(v.drop_last(), k, x);
        let m = choose|m: int| 0 <= m < v.drop_last().len() && v.drop_last()[m] == x;
        assert(v[m] == x);
    } else {
        assert((a + b)[j] == b[j - a.len()]);
        assert(v[v.len() - 1] == x);
    }
}

// ---------------------------------------------------------------------------
// Integers of a compilation are not negative
// ---------------------------------------------------------------------------

pub open spec fn opt_nonneg(o: Option<i64>) -> bool {
    match o {
        Some(n) => n >= 0,
        None => true,
    }
}

/// Every integer of a turn is at least 0.
pub open spec fn turn_nonneg(t: TurnView) -> bool {
    &&& t.started_at >= 0
    &&& t.ended_at >= 0
    &&& opt_nonneg(t.ttft_ms)
    &&& opt_nonneg(t.input_tokens)
    &&& opt_nonneg(t.cached_input_tokens)
    &&& opt_nonneg(t.output_tokens)
    &&& opt_nonneg(t.reasoning_output_tokens)
    &&& opt_nonneg(t.total_tokens)
    &&& opt_nonneg(t.prompt_length)
}

/// Every integer of a tool call is at least 0.
pub open spec fn tool_nonneg(t: ToolCallView) -> bool {
    &&& t.input_bytes >= 0
    &&& t.output_bytes >= 0
    &&& t.output_line_count >= 0
    &&& t.duration_ms >= 0
    &&& t.completed_at >= 0
}

/// An unknown-telemetry entry counts at least one sighting, at times at least 0.
pub open spec fn unknown_nonneg(u: UnknownView) -> bool {
    &&& u.count >= 1
    &&& u.first_seen >= 0
    &&& u.last_seen >= 0
}

/// Every time of the spans and their events is at least 0.
pub open spec fn times_nonneg(spans: Seq<RawSpanView>) -> bool {
    forall|i: int| 0 <= i < spans.len() ==> {
        &&& (#[trigger] spans[i]).started_at >= 0
        &&& spans[i].ended_at >= 0
        &&& forall|j: int| 0 <= j < spans[i].events.len() ==> (#[trigger] spans[i].events[j]).timestamp >= 0
    }
}

/// The times that a request gives its spans and events are at least 0.
pub proof fn lemma_request_times_nonneg(request: OtlpRequest)
    ensures
        times_nonneg(spec_raw_spans(request)),
{
    let spans = spec_raw_spans(request);
    let src = resource_list_spans(request.resource_spans@);
    assert forall|i: int| 0 <= i < spans.len() implies {
        &&& (#[trigger] spans[i]).started_at >= 0
        &&& spans[i].ended_at >= 0
        &&& forall|j: int| 0 <= j < spans[i].events.len() ==> (#[trigger] spans[i].events[j]).timestamp >= 0
    } by {
        assert(spans[i] == spec_raw_span(src[i]));
        assert forall|j: int| 0 <= j < spans[i].events.len() implies (#[trigger] spans[i].events[j]).timestamp >= 0 by {
            assert(spans[i].events[j] == spec_raw_event(src[i].events@[j]));
        }
    }
}

proof fn lemma_events_ttft_nonneg(events: Seq<RawEventView>)
    ensures
        match events_last_ttft(events) {
            Some(x) => opt_nonneg(x),
            None => true,
        },
    decreases events.len(),
{
    if events.len() > 0 {
        lemma_events_ttft_nonneg(events.drop_last());
    }
}

proof fn lemma_ttft_nonneg(spans: Seq<RawSpanView>, t: Seq<char>)
    ensures
        opt_nonneg(spec_turn_ttft(spans, t)),
    decreases spans.len(),
{
    if spans.len() > 0 {
        lemma_events_ttft_nonneg(spans.last().events);
        lemma_ttft_nonneg(spans.drop_last(), t);
    }
}

pub open spec fn obs_nonneg(obs: Seq<(Seq<char>, i64)>) -> bool {
    forall|i: int| 0 <= i < obs.len() ==> (#[trigger] obs[i]).1 >= 0
}

proof fn lemma_concat_obs_nonneg(a: Seq<(Seq<char>, i64)>, b: Seq<(Seq<char>, i64)>)
    requires
        obs_nonneg(a),
        obs_nonneg(b),
    ensures
        obs_nonneg(a + b),
{
    assert forall|i: int| 0 <= i < (a + b).len() implies (#[trigger] (a + b)[i]).1 >= 0 by {
        if i < a.len() {
            assert((a + b)[i] == a[i]);
        } else {
            assert((a + b)[i] == b[i - a.len()]);
        }
    }
}

proof fn lemma_events_prompt_nonneg(events: Seq<RawEventView>, t: Seq<char>)
    ensures
        obs_nonneg(events_prompt_obs(events, t)),
    decreases events.len(),
{
    if events.len() > 0 {
        lemma_events_prompt_nonneg(events.drop_last(), t);
        lemma_concat_obs_nonneg(events_prompt_obs(events.drop_last(), t), event_prompt_obs(events.last(), t));
    }
}

proof fn lemma_prompt_obs_nonneg(all: Seq<RawSpanView>, spans: Seq<RawSpanView>)
    ensures
        obs_nonneg(prompt_obs_of(all, spans)),
    decreases spans.len(),
{
    if spans.len() > 0 {
        lemma_prompt_obs_nonneg(all, spans.drop_last());
        let tail = match spec_ancestor_turn(all, spans.last()) {
            Some(t) => events_prompt_obs(spans.last().events, t),
            None => Seq::empty(),
        };
        if let Some(t) = spec_ancestor_turn(all, spans.last()) {
            lemma_events_prompt_nonneg(spans.last().events, t);
        }
        lemma_concat_obs_nonneg(prompt_obs_of(all, spans.drop_last()), tail);
    }
}

proof fn lemma_prompt_length_nonneg(spans: Seq<RawSpanView>, t: Seq<char>)
    ensures
        opt_nonneg(spec_turn_prompt_length(spans, t)),
{
    let obs = prompt_obs(spans);
    lemma_prompt_obs_nonneg(spans, spans);
    if exists|i: int| 0 <= i < obs.len() && (#[trigger] obs[i]).0 == t {
        let i = choose|i: int| 0 <= i < obs.len() && (#[trigger] obs[i]).0 == t;
        assert(obs[i].1 >= 0);
    }
}

/// Every canonical turn of spans whose times are not negative has no negative integer.
pub proof fn lemma_turn_candidates_nonneg(all: Seq<RawSpanView>, spans: Seq<RawSpanView>)
    requires
        times_nonneg(spans),
    ensures
        forall|i: int| 0 <= i < turn_candidates_of(all, spans).len() ==> turn_nonneg(#[trigger] turn_candidates_of(all, spans)[i]),
    decreases spans.len(),
{
    if spans.len() > 0 {
        let prev = spans.drop_last();
        let s = spans.last();
        assert(s == spans[spans.len() - 1]);
        assert forall|i: int| 0 <= i < prev.len() implies {
            &&& (#[trigger] prev[i]).started_at >= 0
            &&& prev[i].ended_at >= 0
            &&& forall|j: int| 0 <= j < prev[i].events.len() ==> (#[trigger] prev[i].events[j]).timestamp >= 0
        } by {
            assert(prev[i] == spans[i]);
        }
        lemma_turn_candidates_nonneg(all, prev);
        let a = turn_candidates_of(all, prev);
        let b = match spec_canonical_turn(all, s) {
            Some(t) => seq![t],
            None => Seq::<TurnView>::empty(),
        };
        if let Some(t) = spec_canonical_turn(all, s) {
            let tid = and_then_string(spec_input_value(s, "turn.id"@))->Some_0;
            lemma_ttft_nonneg(all, tid);
            lemma_prompt_length_nonneg(all, tid);
            assert(turn_nonneg(t));
        }
        assert forall|i: int| 0 <= i < (a + b).len() implies turn_nonneg(#[trigger] (a + b)[i]) by {
            if i < a.len() {
                assert((a + b)[i] == a[i]);
            } else {
                assert((a + b)[i] == b[i - a.len()]);
            }
        }
    }
}

pub open spec fn tools_nonneg(tools: Seq<ToolCallView>) -> bool {
    forall|i: int| 0 <= i < tools.len() ==> tool_nonneg(#[trigger] tools[i])
}

proof fn lemma_concat_tools_nonneg(a: Seq<ToolCallView>, b: Seq<ToolCallView>)
    requires
        tools_nonneg(a),
        tools_nonneg(b),
    ensures
        tools_nonneg(a + b),
{
    assert forall|i: int| 0 <= i < (a + b).len() implies tool_nonneg(#[trigger] (a + b)[i]) by {
        if i < a.len() {
            assert((a + b)[i] == a[i]);
        } else {
            assert((a + b)[i] == b[i - a.len()]);
        }
    }
}

proof fn lemma_events_tools_nonneg(all: Seq<RawSpanView>, span: RawSpanView, events: Seq<RawEventView>, canonical: Set<Key>)
    requires
        forall|j: int| 0 <= j < events.len() ==> (#[trigger] events[j]).timestamp >= 0,
    ensures
        tools_nonneg(events_tools(all, span, events, canonical)),
    decreases events.len(),
{
    if events.len() > 0 {
        let prev = events.drop_last();
        assert forall|j: int| 0 <= j < prev.len() implies (#[trigger] prev[j]).timestamp >= 0 by {
            assert(prev[j] == events[j]);
        }
        lemma_events_tools_nonneg(all, span, prev, canonical);
        assert(events.last() == events[events.len() - 1]);
        let last = match event_tool(all, span, events.last(), canonical) {
            Some(t) => seq![t],
            None => Seq::<ToolCallView>::empty(),
        };
        lemma_concat_tools_nonneg(events_tools(all, span, prev, canonical), last);
    }
}

/// Every tool result of spans whose times are not negative has no negative integer.
pub proof fn lemma_tool_candidates_nonneg(all: Seq<RawSpanView>, spans: Seq<RawSpanView>, canonical: Set<Key>)
    requires
        times_nonneg(spans),
    ensures
        tools_nonneg(tool_candidates_of(all, spans, canonical)),
    decreases spans.len(),
{
    if spans.len() > 0 {
        let prev = spans.drop_last();
        let s = spans.last();
        assert(s == spans[spans.len() - 1]);
        assert forall|i: int| 0 <= i < prev.len() implies {
            &&& (#[trigger] prev[i]).started_at >= 0
            &&& prev[i].ended_at >= 0
            &&& forall|j: int| 0 <= j < prev[i].events.len() ==> (#[trigger] prev[i].events[j]).timestamp >= 0
        } by {
            assert(prev[i] == spans[i]);
        }
        lemma_tool_candidates_nonneg(all, prev, canonical);
        lemma_events_tools_nonneg(all, s, s.events, canonical);
        lemma_concat_tools_nonneg(tool_candidates_of(all, prev, canonical), events_tools(all, s, s.events, canonical));
    }
}

pub open spec fn sightings_nonneg(obs: Seq<UnknownObs>) -> bool {
    forall|i: int| 0 <= i < obs.len() ==> (#[trigger] obs[i]).2 >= 0
}

proof fn lemma_concat_sightings_nonneg(a: Seq<UnknownObs>, b: Seq<UnknownObs>)
    requires
        sightings_nonneg(a),
        sightings_nonneg(b),
    ensures
        sightings_nonneg(a + b),
{
    assert forall|i: int| 0 <= i < (a + b).len() implies (#[trigger] (a + b)[i]).2 >= 0 by {
        if i < a.len() {
            assert((a + b)[i] == a[i]);
        } else {
            assert((a + b)[i] == b[i - a.len()]);
        }
    }
}

proof fn lemma_events_sightings_nonneg(events: Seq<RawEventView>)
    requires
        forall|j: int| 0 <= j < events.len() ==> (#[trigger] events[j]).timestamp >= 0,
    ensures
        sightings_nonneg(events_unknown_obs(events)),
    decreases events.len(),
{
    if events.len() > 0 {
        let prev = events.drop_last();
        assert forall|j: int| 0 <= j < prev.len() implies (#[trigger] prev[j]).timestamp >= 0 by {
            assert(prev[j] == events[j]);
        }
        lemma_events_sightings_nonneg(prev);
        assert(events.last() == events[events.len() - 1]);
        lemma_concat_sightings_nonneg(events_unknown_obs(prev), event_unknown_obs(events.last()));
    }
}

/// Every sighting of unknown telemetry in spans whose times are not negative
/// is at a time at least 0.
pub proof fn lemma_sightings_nonneg(spans: Seq<RawSpanView>)
    requires
        times_nonneg(spans),
    ensures
        sightings_nonneg(unknown_obs(spans)),
    decreases spans.len(),
{
    if spans.len() > 0 {
        let prev = spans.drop_last();
        let s = spans.last();
        assert(s == spans[spans.len() - 1]);
        assert forall|i: int| 0 <= i < prev.len() implies {
            &&& (#[trigger] prev[i]).started_at >= 0
            &&& prev[i].ended_at >= 0
            &&& forall|j: int| 0 <= j < prev[i].events.len() ==> (#[trigger] prev[i].events[j]).timestamp >= 0
        } by {
            assert(prev[i] == spans[i]);
        }
        lemma_sightings_nonneg(prev);
        lemma_events_sightings_nonneg(s.events);
        lemma_concat_sightings_nonneg(unknown_obs(prev), span_head_obs(s));
        lemma_concat_sightings_nonneg(unknown_obs(prev) + span_head_obs(s), events_unknown_obs(s.events));
    }
}

// ---------------------------------------------------------------------------
// The order of sightings does not matter
// ---------------------------------------------------------------------------

/// Recording two sightings in either order counts the same.
pub proof fn law_record_order_does_not_matter(
    m: Map<UnknownKey, UnknownView>,
    n1: Seq<char>,
    k1: TelemetryKind,
    t1: i64,
    n2: Seq<char>,
    k2: TelemetryKind,
    t2: i64,
)
    ensures
        record_step(record_step(m, n1, k1, t1), n2, k2, t2) == record_step(record_step(m, n2, k2, t2), n1, k1, t1),
{
    let a = record_step(record_step(m, n1, k1, t1), n2, k2, t2);
    let b = record_step(record_step(m, n2, k2, t2), n1, k1, t1);
    assert(a =~= b);
}

/// At most one list holds the entries of a map in ascending order of
/// `unknown_key`: the listing of counted telemetry is the same whatever order
/// the entries were counted in.
pub proof fn law_unknown_listing_is_unique(l1: Seq<UnknownView>, l2: Seq<UnknownView>, m: Map<UnknownKey, UnknownView>)
    requires
        lists_unknown(l1, m),
        lists_unknown(l2, m),
    ensures
        l1 == l2,
    decreases l1.len(),
{
    reveal_strlit("Span");
    reveal_strlit("Event");
    assert("Span"@.len() == 4 && "Event"@.len() == 5);
    if l1.len() == 0 {
        if l2.len() > 0 {
            assert(m.dom().contains((l2[0].kind, l2[0].name)));
        }
        assert(l1 =~= l2);
        return;
    }
    assert(m.dom().contains((l1[0].kind, l1[0].name)));
    let a = l1[0];
    let ka = (a.kind, a.name);
    let j = choose|j: int| 0 <= j < l2.len() && (l2[j].kind, l2[j].name) == ka;
    let b = l2[0];
    let kb = (b.kind, b.name);
    assert(m.dom().contains(kb));
    let i = choose|i: int| 0 <= i < l1.len() && (l1[i].kind, l1[i].name) == kb;
    if ka != kb {
        assert(i != 0 && j != 0);
        assert(key_lt(unknown_key(l1[0]), unknown_key(l1[i])));
        assert(key_lt(unknown_key(l2[0]), unknown_key(l2[j])));
        assert(unknown_key(l1[i]) == unknown_key(b));
        assert(unknown_key(l2[j]) == unknown_key(a));
        lemma_key_asymmetric(unknown_key(a), unknown_key(b));
    }
    assert(a == m[ka]);
    assert(b == m[kb]);
    assert(a == b);
    let m2 = m.remove(ka);
    lemma_unknown_tail(l1, m);
    lemma_unknown_tail(l2, m);
    law_unknown_listing_is_unique(l1.drop_first(), l2.drop_first(), m2);
    assert(l1 =~= seq![a] + l1.drop_first());
    assert(l2 =~= seq![b] + l2.drop_first());
}

/// The rest of a listing lists the map without its first entry.
proof fn lemma_unknown_tail(l: Seq<UnknownView>, m: Map<UnknownKey, UnknownView>)
    requires
        lists_unknown(l, m),
        l.len() > 0,
        "Span"@ != "Event"@,
    ensures
        lists_unknown(l.drop_first(), m.remove((l[0].kind, l[0].name))),
{
    let k0 = (l[0].kind, l[0].name);
    let t = l.drop_first();
    let m2 = m.remove(k0);
    assert forall|i: int, j: int| 0 <= i < j < t.len() implies key_lt(unknown_key(#[trigger] t[i]), unknown_key(#[trigger] t[j])) by {
        assert(t[i] == l[i + 1] && t[j] == l[j + 1]);
    }
    assert forall|i: int| 0 <= i < t.len() implies m2.dom().contains((#[trigger] t[i].kind, t[i].name)) && m2[(t[i].kind, t[i].name)] == t[i] by {
        assert(t[i] == l[i + 1]);
        assert(key_lt(unknown_key(l[0]), unknown_key(l[i + 1])));
        lemma_key_asymmetric(unknown_key(l[0]), unknown_key(l[i + 1]));
    }
    assert forall|k: UnknownKey| #[trigger] m2.dom().contains(k) implies exists|i: int| 0 <= i < t.len() && (t[i].kind, t[i].name) == k by {
        let i = choose|i: int| 0 <= i < l.len() && (l[i].kind, l[i].name) == k;
        assert(i != 0);
        assert(t[i - 1] == l[i]);
    }
}

/// Recording two sightings in either order gives the same listing.
pub proof fn law_record_order_gives_same_listing(
    m: Map<UnknownKey, UnknownView>,
    n1: Seq<char>,
    k1: TelemetryKind,
    t1: i64,
    n2: Seq<char>,
    k2: TelemetryKind,
    t2: i64,
    l1: Seq<UnknownView>,
    l2: Seq<UnknownView>,
)
    requires
        lists_unknown(l1, record_step(record_step(m, n1, k1, t1), n2, k2, t2)),
        lists_unknown(l2, record_step(record_step(m, n2, k2, t2), n1, k1, t1)),
    ensures
        l1 == l2,
{
    law_record_order_does_not_matter(m, n1, k1, t1, n2, k2, t2);
    law_unknown_listing_is_unique(l1, l2, record_step(record_step(m, n1, k1, t1), n2, k2, t2));
}

} // verus!
