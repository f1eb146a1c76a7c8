//! Where each record of a compilation comes from, stated over the spans and
//! events of the request themselves: a tool call is the reading of one
//! `codex.tool_result` event, every readable one is kept, an MCP call's turn
//! is the turn of its tool call, a turn is the reading of one
//! `session_task.turn` span, and classified telemetry is never unknown.
use vstd::prelude::*;

use crate::collect::{tool_key, turn_key};
use crate::compile::{
    compiles_to, event_tool, events_tools, spec_canonical_turn, tool_aggregate, tool_candidates,
    tool_candidates_of, turn_candidates, turn_candidates_of, turn_key_set, unknown_aggregate,
    unknown_obs,
};
use crate::entries::{entries_map, lookup};
use crate::laws::{
    law_kept_tool_call_is_latest, lemma_spans_unclassified, lemma_tool_dom, lemma_turn_of_key_is_member,
    lemma_turn_with_own_key, lemma_unknown_dom, obs_key, unclassified,
};
use crate::links::{mcp_entries, spec_mcp_links};
use crate::model::{strings_view, tools_view, turns_view, unknown_view, CompiledTelemetry, TelemetryKind, ToolCallView, ToolKind, TurnView};
use crate::order::Key;
use crate::raw::{RawEventView, RawSpanView};
use crate::read::{spec_event_identity, spec_input_value};
use crate::value::{and_then_bool, and_then_count, and_then_string, map_get};

verus! {

// ---------------------------------------------------------------------------
// Tool results, as the events give them
// ---------------------------------------------------------------------------

/// Event `e` is a `codex.tool_result` that reads as a tool call with these
/// values: each attribute as the event carries it.
pub open spec fn tool_result_reads(e: RawEventView, t: ToolCallView) -> bool {
    &&& spec_event_identity(e) == "codex.tool_result"@
    &&& and_then_string(map_get(e.attributes, "call_id"@)) == Some(t.id)
    &&& and_then_string(map_get(e.attributes, "conversation.id"@)) == Some(t.session_id)
    &&& and_then_string(map_get(e.attributes, "tool_name"@)) == Some(t.name)
    &&& and_then_bool(map_get(e.attributes, "success"@)) == Some(t.success)
    &&& and_then_count(map_get(e.attributes, "arguments_length"@)) == Some(t.input_bytes)
    &&& and_then_count(map_get(e.attributes, "output_length"@)) == Some(t.output_bytes)
    &&& and_then_count(map_get(e.attributes, "output_line_count"@)) == Some(t.output_line_count)
    &&& and_then_bool(map_get(e.attributes, "output_truncated"@)) == Some(t.output_truncated)
    &&& and_then_count(map_get(e.attributes, "duration_ms"@)) == Some(t.duration_ms)
    &&& t.completed_at == e.timestamp
    &&& t.kind == if and_then_bool(map_get(e.attributes, "mcp_tool"@)) == Some(true)
        && and_then_string(map_get(e.attributes, "tool_origin"@)) == Some("mcp"@) {
        ToolKind::Mcp
    } else if and_then_bool(map_get(e.attributes, "mcp_tool"@)) == Some(false)
        && and_then_string(map_get(e.attributes, "tool_origin"@)) == Some("builtin"@) {
        ToolKind::Builtin
    } else {
        ToolKind::Unknown
    }
}

/// Event `e` is a `codex.tool_result` whose every required attribute reads.
pub open spec fn tool_result_readable(e: RawEventView) -> bool {
    &&& spec_event_identity(e) == "codex.tool_result"@
    &&& and_then_string(map_get(e.attributes, "call_id"@)) is Some
    &&& and_then_string(map_get(e.attributes, "conversation.id"@)) is Some
    &&& and_then_string(map_get(e.attributes, "tool_name"@)) is Some
    &&& and_then_bool(map_get(e.attributes, "success"@)) is Some
    &&& and_then_count(map_get(e.attributes, "arguments_length"@)) is Some
    &&& and_then_count(map_get(e.attributes, "output_length"@)) is Some
    &&& and_then_count(map_get(e.attributes, "output_line_count"@)) is Some
    &&& and_then_bool(map_get(e.attributes, "output_truncated"@)) is Some
    &&& and_then_count(map_get(e.attributes, "duration_ms"@)) is Some
}

proof fn lemma_event_tool_source(all: Seq<RawSpanView>, span: RawSpanView, events: Seq<RawEventView>, canonical: Set<Key>, j: int) -> (m: int)
    requires
        0 <= j < events_tools(all, span, events, canonical).len(),
    ensures
        0 <= m < events.len(),
        event_tool(all, span, events[m], canonical) == Some(events_tools(all, span, events, canonical)[j]),
    decreases events.len(),
{
    let prev = events.drop_last();
    let a = events_tools(all, span, prev, canonical);
    let b = match event_tool(all, span, events.last(), canonical) {
        Some(t) => seq![t],
        None => Seq::<ToolCallView>::empty(),
    };
    assert(events_tools(all, span, events, canonical) == a + b);
    if j < a.len() {
        let m = lemma_event_tool_source(all, span, prev, canonical, j);
        assert(events[m] == prev[m]);
        m
    } else {
        assert((a + b)[j] == b[j - a.len()]);
        events.len() - 1
    }
}

/// Each tool result of the spans comes from event `m` of span `k`.
proof fn lemma_tool_candidate_source(all: Seq<RawSpanView>, spans: Seq<RawSpanView>, canonical: Set<Key>, j: int) -> (km: (int, int))
    requires
        0 <= j < tool_candidates_of(all, spans, canonical).len(),
    ensures
        0 <= km.0 < spans.len(),
        0 <= km.1 < spans[km.0].events.len(),
        event_tool(all, spans[km.0], spans[km.0].events[km.1], canonical) == Some(tool_candidates_of(all, spans, canonical)[j]),
    decreases spans.len(),
{
    let prev = spans.drop_last();
    let s = spans.last();
    let a = tool_candidates_of(all, prev, canonical);
    let b = events_tools(all, s, s.events, canonical);
    assert(tool_candidates_of(all, spans, canonical) == a + b);
    if j < a.len() {
        let km = lemma_tool_candidate_source(all, prev, canonical, j);
        assert(spans[km.0] == prev[km.0]);
        km
    } else {
        assert((a + b)[j] == b[j - a.len()]);
        let m = lemma_event_tool_source(all, s, s.events, canonical, j - a.len());
        (spans.len() - 1, m)
    }
}

proof fn lemma_event_tool_present(all: Seq<RawSpanView>, span: RawSpanView, events: Seq<RawEventView>, canonical: Set<Key>, m: int, x: ToolCallView) -> (j: int)
    requires
        0 <= m < events.len(),
        event_tool(all, span, events[m], canonical) == Some(x),
    ensures
        0 <= j < events_tools(all, span, events, canonical).len(),
        events_tools(all, span, events, canonical)[j] == x,
    decreases events.len(),
{
    let prev = events.drop_last();
    let a = events_tools(all, span, prev, canonical);
    let b = match event_tool(all, span, events.last(), canonical) {
        Some(t) => seq![t],
        None => Seq::<ToolCallView>::empty(),
    };
    assert(events_tools(all, span, events, canonical) == a + b);
    if m < events.len() - 1 {
        assert(events[m] == prev[m]);
        let j = lemma_event_tool_present(all, span, prev, canonical, m, x);
        assert((a + b)[j] == a[j]);
        j
    } else {
        assert((a + b)[a.len() as int] == x);
        a.len() as int
    }
}

/// The reading of event `m` of span `k` is among the tool results of the spans.
proof fn lemma_tool_candidate_present(all: Seq<RawSpanView>, spans: Seq<RawSpanView>, canonical: Set<Key>, k: int, m: int, x: ToolCallView) -> (j: int)
    requires
        0 <= k < spans.len(),
        0 <= m < spans[k].events.len(),
        event_tool(all, spans[k], spans[k].events[m], canonical) == Some(x),
    ensures
        0 <= j < tool_candidates_of(all, spans, canonical).len(),
        tool_candidates_of(all, spans, canonical)[j] == x,
    decreases spans.len(),
{
    let prev = spans.drop_last();
    let s = spans.last();
    let a = tool_candidates_of(all, prev, canonical);
    let b = events_tools(all, s, s.events, canonical);
    assert(tool_candidates_of(all, spans, canonical) == a + b);
    if k < spans.len() - 1 {
        assert(spans[k] == prev[k]);
        let j = lemma_tool_candidate_present(all, prev, canonical, k, m, x);
        assert((a + b)[j] == a[j]);
        j
    } else {
        let j = lemma_event_tool_present(all, s, s.events, canonical, m, x);
        assert((a + b)[a.len() + j] == b[j]);
        a.len() + j
    }
}

/// Every tool call of a compilation is the reading of one `codex.tool_result`
/// event of the request, event `km.1` of span `km.0`: its id, session, name,
/// success, sizes, line count, truncation and duration are that event's
/// attributes, its completion time is that event's time, and it is MCP or
/// builtin only where `mcp_tool` and `tool_origin` agree on it.
pub proof fn law_tool_call_reads_its_event(all: Seq<RawSpanView>, c: CompiledTelemetry, i: int) -> (km: (int, int))
    requires
        compiles_to(all, c),
        0 <= i < c.tool_calls@.len(),
    ensures
        0 <= km.0 < all.len(),
        0 <= km.1 < all[km.0].events.len(),
        tool_result_reads(all[km.0].events[km.1], tools_view(c.tool_calls@)[i]),
{
    let x = tools_view(c.tool_calls@)[i];
    let cands = tool_candidates(all);
    let j = law_kept_tool_call_is_latest(cands, tool_key(x));
    let km = lemma_tool_candidate_source(all, all, turn_key_set(turn_candidates(all)), j);
    km
}

/// Every `codex.tool_result` event of the request whose required attributes
/// all read, whether it reports success or failure, gives the compilation a
/// tool call of its session and call id, and its session is a session of the
/// compilation.
pub proof fn law_readable_tool_result_is_kept(all: Seq<RawSpanView>, c: CompiledTelemetry, k: int, m: int) -> (i: int)
    requires
        compiles_to(all, c),
        0 <= k < all.len(),
        0 <= m < all[k].events.len(),
        tool_result_readable(all[k].events[m]),
    ensures
        0 <= i < c.tool_calls@.len(),
        Some(tools_view(c.tool_calls@)[i].id) == and_then_string(map_get(all[k].events[m].attributes, "call_id"@)),
        Some(tools_view(c.tool_calls@)[i].session_id) == and_then_string(map_get(all[k].events[m].attributes, "conversation.id"@)),
        strings_view(c.sessions@).contains(tools_view(c.tool_calls@)[i].session_id),
{
    let canonical = turn_key_set(turn_candidates(all));
    let e = all[k].events[m];
    let x = event_tool(all, all[k], e, canonical)->Some_0;
    let j = lemma_tool_candidate_present(all, all, canonical, k, m, x);
    let cands = tool_candidates(all);
    lemma_tool_dom(cands, tool_key(x));
    let m2 = tool_aggregate(cands);
    assert(m2.dom().contains(tool_key(x)));
    let tv = tools_view(c.tool_calls@);
    let i = choose|i: int| 0 <= i < tv.len() && tool_key(tv[i]) == tool_key(x);
    assert(strings_view(c.sessions@).contains(tv[i].session_id));
    i
}

// ---------------------------------------------------------------------------
// The turn that an MCP call names
// ---------------------------------------------------------------------------

/// Span `s` is an `mcp.tools.call` whose input names session `sid`, call `id` and turn `turn`.
pub open spec fn mcp_call_names(s: RawSpanView, sid: Seq<char>, id: Seq<char>, turn: Seq<char>) -> bool {
    &&& s.name == "mcp.tools.call"@
    &&& and_then_string(spec_input_value(s, "conversation.id"@)) == Some(sid)
    &&& and_then_string(spec_input_value(s, "tool.call_id"@)) == Some(id)
    &&& and_then_string(spec_input_value(s, "turn.id"@)) == Some(turn)
}

/// Span `s` is an `mcp.tools.call` whose input names session `sid`, call `id` and some turn.
pub open spec fn mcp_call_names_some_turn(s: RawSpanView, sid: Seq<char>, id: Seq<char>) -> bool {
    &&& s.name == "mcp.tools.call"@
    &&& and_then_string(spec_input_value(s, "conversation.id"@)) == Some(sid)
    &&& and_then_string(spec_input_value(s, "tool.call_id"@)) == Some(id)
    &&& and_then_string(spec_input_value(s, "turn.id"@)) is Some
}

proof fn lemma_mcp_link_of_last_call(spans: Seq<RawSpanView>, k: int, sid: Seq<char>, id: Seq<char>, turn: Seq<char>)
    requires
        0 <= k < spans.len(),
        mcp_call_names(spans[k], sid, id, turn),
        forall|j: int| k < j < spans.len() ==> !mcp_call_names_some_turn(#[trigger] spans[j], sid, id),
    ensures
        lookup(spec_mcp_links(spans), (sid, id)) == Some(turn),
    decreases spans.len(),
{
    let n = spans.len() - 1;
    let prev = spans.drop_last();
    let s = spans.last();
    assert(s == spans[n]);
    let rest = mcp_entries(prev);
    if mcp_entries(spans) != rest {
        let e = mcp_entries(spans).last();
        assert(mcp_entries(spans) == rest.push(e));
        assert(rest.push(e).drop_last() =~= rest);
        assert(entries_map(mcp_entries(spans)) == entries_map(rest).insert(e.0, e.1));
        if k == n {
            assert(e == ((sid, id), turn));
        } else {
            assert(s.name == "mcp.tools.call"@);
            assert(e.0 != (sid, id));
        }
    }
    if k < n {
        assert(prev[k] == spans[k]);
        assert forall|j: int| k < j < prev.len() implies !mcp_call_names_some_turn(#[trigger] prev[j], sid, id) by {
            assert(prev[j] == spans[j]);
        }
        lemma_mcp_link_of_last_call(prev, k, sid, id, turn);
        assert(!mcp_call_names_some_turn(spans[n], sid, id));
    }
}

/// A tool result whose key an MCP call names takes that call's turn.
proof fn lemma_candidate_takes_mcp_turn(all: Seq<RawSpanView>, j: int, turn: Seq<char>)
    requires
        0 <= j < tool_candidates(all).len(),
        lookup(spec_mcp_links(all), (tool_candidates(all)[j].session_id, tool_candidates(all)[j].id)) == Some(turn),
    ensures
        tool_candidates(all)[j].turn_id == Some(turn),
{
    let km = lemma_tool_candidate_source(all, all, turn_key_set(turn_candidates(all)), j);
}

/// Where an `mcp.tools.call` span names a tool call's session and call id and
/// a turn, and no later such span names that session and call id with a turn,
/// the tool call's turn is that turn, whatever its span's ancestors are.
pub proof fn law_mcp_call_gives_the_tool_turn(all: Seq<RawSpanView>, c: CompiledTelemetry, i: int, k: int, turn: Seq<char>)
    requires
        compiles_to(all, c),
        0 <= i < c.tool_calls@.len(),
        0 <= k < all.len(),
        mcp_call_names(all[k], tools_view(c.tool_calls@)[i].session_id, tools_view(c.tool_calls@)[i].id, turn),
        forall|j: int| k < j < all.len() ==> !mcp_call_names_some_turn(
            #[trigger] all[j],
            tools_view(c.tool_calls@)[i].session_id,
            tools_view(c.tool_calls@)[i].id,
        ),
    ensures
        tools_view(c.tool_calls@)[i].turn_id == Some(turn),
{
    let x = tools_view(c.tool_calls@)[i];
    lemma_mcp_link_of_last_call(all, k, x.session_id, x.id, turn);
    let cands = tool_candidates(all);
    let j = law_kept_tool_call_is_latest(cands, tool_key(x));
    lemma_candidate_takes_mcp_turn(all, j, turn);
}

// ---------------------------------------------------------------------------
// Turns, as their spans give them
// ---------------------------------------------------------------------------

proof fn lemma_turn_candidate_source(all: Seq<RawSpanView>, spans: Seq<RawSpanView>, j: int) -> (k: int)
    requires
        0 <= j < turn_candidates_of(all, spans).len(),
    ensures
        0 <= k < spans.len(),
        spec_canonical_turn(all, spans[k]) == Some(turn_candidates_of(all, spans)[j]),
    decreases spans.len(),
{
    let prev = spans.drop_last();
    let a = turn_candidates_of(all, prev);
    let b = match spec_canonical_turn(all, spans.last()) {
        Some(t) => seq![t],
        None => Seq::<TurnView>::empty(),
    };
    assert(turn_candidates_of(all, spans) == a + b);
    if j < a.len() {
        let k = lemma_turn_candidate_source(all, prev, j);
        assert(spans[k] == prev[k]);
        k
    } else {
        assert((a + b)[j] == b[j - a.len()]);
        spans.len() - 1
    }
}

/// Every turn of a compilation is the reading of one `session_task.turn` span
/// of the request, span `k`: its id is that span's input `turn.id`, its times
/// are the span's, its reasoning effort and each token count are the span's
/// own input values as they read (a missing or unreadable one is `None`,
/// whatever the others hold), and where the span's input names a model, that
/// is its model.
pub proof fn law_turn_reads_its_span(all: Seq<RawSpanView>, c: CompiledTelemetry, i: int) -> (k: int)
    requires
        compiles_to(all, c),
        0 <= i < c.turns@.len(),
    ensures
        0 <= k < all.len(),
        all[k].name == "session_task.turn"@,
        and_then_string(spec_input_value(all[k], "turn.id"@)) == Some(turns_view(c.turns@)[i].id),
        turns_view(c.turns@)[i].started_at == all[k].started_at,
        turns_view(c.turns@)[i].ended_at == all[k].ended_at,
        turns_view(c.turns@)[i].reasoning_effort == and_then_string(spec_input_value(all[k], "codex.turn.reasoning_effort"@)),
        turns_view(c.turns@)[i].input_tokens == and_then_count(spec_input_value(all[k], "codex.turn.token_usage.input_tokens"@)),
        turns_view(c.turns@)[i].cached_input_tokens == and_then_count(
            spec_input_value(all[k], "codex.turn.token_usage.cached_input_tokens"@),
        ),
        turns_view(c.turns@)[i].output_tokens == and_then_count(spec_input_value(all[k], "codex.turn.token_usage.output_tokens"@)),
        turns_view(c.turns@)[i].reasoning_output_tokens == and_then_count(
            spec_input_value(all[k], "codex.turn.token_usage.reasoning_output_tokens"@),
        ),
        turns_view(c.turns@)[i].total_tokens == and_then_count(spec_input_value(all[k], "codex.turn.token_usage.total_tokens"@)),
        and_then_string(spec_input_value(all[k], "model"@)) is Some ==> turns_view(c.turns@)[i].model == and_then_string(
            spec_input_value(all[k], "model"@),
        ),
{
    let tv = turns_view(c.turns@);
    let cands = turn_candidates(all);
    lemma_turn_with_own_key(tv, i);
    lemma_turn_of_key_is_member(cands, turn_key(tv[i]), tv[i]);
    let j = choose|j: int| 0 <= j < cands.len() && cands[j] == tv[i];
    lemma_turn_candidate_source(all, all, j)
}

// ---------------------------------------------------------------------------
// Classified telemetry is never unknown
// ---------------------------------------------------------------------------

/// No span named as the mapping classifies it, and no tool result, time to
/// first token, user prompt, API request, startup phase or WebSocket request
/// event, is ever listed as unknown telemetry.
pub proof fn law_classified_names_are_never_unknown(all: Seq<RawSpanView>, c: CompiledTelemetry, i: int)
    requires
        compiles_to(all, c),
        0 <= i < c.unknown@.len(),
    ensures
        unknown_view(c.unknown@)[i].kind == TelemetryKind::Span ==> {
            let n = unknown_view(c.unknown@)[i].name;
            &&& n != "session_task.turn"@
            &&& n != "run_sampling_request"@
            &&& n != "try_run_sampling_request"@
            &&& n != "op.dispatch.turn_input"@
            &&& n != "turn/start"@
            &&& n != "dispatch_tool_call_with_terminal_outcome"@
            &&& n != "mcp.tools.call"@
            &&& n != "handle_responses"@
            &&& n != "append_items"@
            &&& n != "persist_rollout_items"@
            &&& n != "realtime_conversation.running_state"@
            &&& n != "auth"@
            &&& n != "responses_websocket.stream_request"@
            &&& n != "endpoint_session.execute_with"@
            &&& n != "startup_prewarm.resolve"@
            &&& n != "thread/start"@
        },
        unknown_view(c.unknown@)[i].kind == TelemetryKind::Event ==> {
            let n = unknown_view(c.unknown@)[i].name;
            &&& n != "codex.tool_result"@
            &&& n != "codex.turn_ttft"@
            &&& n != "codex.user_prompt"@
            &&& n != "codex.api_request"@
            &&& n != "codex.startup_phase"@
            &&& n != "codex.websocket_request"@
        },
{
    let u = unknown_view(c.unknown@)[i];
    let key = (u.kind, u.name);
    let obs = unknown_obs(all);
    assert(unknown_aggregate(obs).dom().contains(key));
    lemma_unknown_dom(obs, key);
    lemma_spans_unclassified(all);
    let j = choose|j: int| 0 <= j < obs.len() && obs_key(#[trigger] obs[j]) == key;
    assert(unclassified(obs[j]));
}

} // verus!
