//! The compiler: from the spans of a request to sessions, canonical turns,
//! tool calls and counts of unknown telemetry.
use vstd::prelude::*;

use crate::collect::{
    insert_session, insert_tool, insert_turn, lists_tools, text_strictly_sorted, tool_key, tool_keys,
    tool_step, turn_key, turn_keys, turns_with_key,
};
use crate::entries::{
    entries_map, find_key, keys_unique, lemma_entries_map_absent, lemma_entries_map_contains_at,
    lemma_entries_map_last, lookup,
};
use crate::links::{
    ancestor_turn_id, mcp_links, parent_map, turn_start_ids, mcp_entries, pair_entries_view, pair_lookup, pair_map, spec_ancestor_turn,
    spec_mcp_links, PairEntry,
};
use crate::model::{
    strings_view, tools_view, turns_view, unknown_view, CompiledTelemetry, TelemetryKind,
    ToolCall, ToolCallView, ToolKind, Turn, TurnView, UnknownTelemetry,
};
use crate::laws::{
    law_kept_tool_call_is_latest, law_unknown_counts_sightings, lemma_count_obs_positive,
    lemma_request_times_nonneg, lemma_sightings_nonneg, lemma_tool_candidates_nonneg,
    lemma_turn_candidates_nonneg, times_nonneg, tool_nonneg, turn_nonneg, unknown_nonneg, lemma_tool_candidates_linked, lemma_turn_of_key_is_member,
    lemma_turn_with_own_key, linked_by_key,
};
use crate::decode::{decode_request, decoded_request};
use crate::limits::within_count_limit;
use crate::order::{sorted, Key};
use crate::otlp::OtlpRequest;
use crate::raw::{raw_spans, spec_raw_spans, spans_view, RawEvent, RawEventView, RawSpan, RawSpanView};
use crate::read::{event_identity, input_count, input_string, spec_event_identity, spec_input_value};
use crate::text::text_eq;
use crate::turn_info::{
    copy_text, extras_by_turn, prompt_lengths_by_turn, sessions_by_turn, extras_entries_view, extras_entry, extras_map, no_extras, set_extras, extras_of, links_of, sampling_input,
    spec_turn_prompt_length, spec_turn_session, spec_turn_ttft, text_i64_view, text_pairs_view,
    ExtrasView, TurnExtras,
};
use crate::unknown::{
    discarded_event, lists_unknown, known_span, record_step, spec_discarded_event, spec_known_span, UnknownAccumulator,
    UnknownKey,
};
use crate::model::UnknownView;
use crate::value::{
    and_then_bool, and_then_count, and_then_string, bool_attr, count_attr, map_get, opt_text,
    string_attr,
};

verus! {

// ---------------------------------------------------------------------------
// Tool results
// ---------------------------------------------------------------------------

/// A tool is MCP when it says so and names `mcp` as its origin, builtin when it
/// says it is not MCP and names `builtin`; otherwise its kind is unknown.
pub open spec fn spec_tool_kind(mcp_tool: Option<bool>, origin: Option<Seq<char>>) -> ToolKind {
    if mcp_tool == Some(true) && origin == Some("mcp"@) {
        ToolKind::Mcp
    } else if mcp_tool == Some(false) && origin == Some("builtin"@) {
        ToolKind::Builtin
    } else {
        ToolKind::Unknown
    }
}

/// The tool call that a `codex.tool_result` event reports: `None` where any
/// attribute it needs is missing or unreadable. Its turn is not yet known.
pub open spec fn spec_tool_call(e: RawEventView) -> Option<ToolCallView> {
    let a = e.attributes;
    let id = and_then_string(map_get(a, "call_id"@));
    let session_id = and_then_string(map_get(a, "conversation.id"@));
    let name = and_then_string(map_get(a, "tool_name"@));
    let success = and_then_bool(map_get(a, "success"@));
    let input_bytes = and_then_count(map_get(a, "arguments_length"@));
    let output_bytes = and_then_count(map_get(a, "output_length"@));
    let output_line_count = and_then_count(map_get(a, "output_line_count"@));
    let output_truncated = and_then_bool(map_get(a, "output_truncated"@));
    let duration_ms = and_then_count(map_get(a, "duration_ms"@));
    if id is Some && session_id is Some && name is Some && success is Some && input_bytes is Some
        && output_bytes is Some && output_line_count is Some && output_truncated is Some
        && duration_ms is Some {
        Some(
            ToolCallView {
                id: id->Some_0,
                session_id: session_id->Some_0,
                turn_id: None,
                name: name->Some_0,
                kind: spec_tool_kind(
                    and_then_bool(map_get(a, "mcp_tool"@)),
                    and_then_string(map_get(a, "tool_origin"@)),
                ),
                success: success->Some_0,
                input_bytes: input_bytes->Some_0,
                output_bytes: output_bytes->Some_0,
                output_line_count: output_line_count->Some_0,
                output_truncated: output_truncated->Some_0,
                duration_ms: duration_ms->Some_0,
                completed_at: e.timestamp,
            },
        )
    } else {
        None
    }
}

/// The tool call that an event reports, without its turn.
pub fn tool_call(_span: &RawSpan, event: &RawEvent) -> (r: Option<ToolCall>)
    ensures
        match r {
            Some(t) => spec_tool_call(event@) == Some(t@),
            None => spec_tool_call(event@).is_none(),
        },
{
    proof {
        reveal_strlit("mcp");
        reveal_strlit("builtin");
    }
    let attributes = &event.attributes;
    let id = match string_attr(attributes, "call_id") {
        Some(v) => v,
        None => return None,
    };
    let session_id = match string_attr(attributes, "conversation.id") {
        Some(v) => v,
        None => return None,
    };
    let name = match string_attr(attributes, "tool_name") {
        Some(v) => v,
        None => return None,
    };
    let mcp_tool = bool_attr(attributes, "mcp_tool");
    let origin = string_attr(attributes, "tool_origin");
    let kind = match (mcp_tool, origin) {
        (Some(true), Some(origin)) if text_eq(origin.as_str(), "mcp") => ToolKind::Mcp,
        (Some(false), Some(origin)) if text_eq(origin.as_str(), "builtin") => ToolKind::Builtin,
        _ => ToolKind::Unknown,
    };
    let success = match bool_attr(attributes, "success") {
        Some(v) => v,
        None => return None,
    };
    let input_bytes = match count_attr(attributes, "arguments_length") {
        Some(v) => v,
        None => return None,
    };
    let output_bytes = match count_attr(attributes, "output_length") {
        Some(v) => v,
        None => return None,
    };
    let output_line_count = match count_attr(attributes, "output_line_count") {
        Some(v) => v,
        None => return None,
    };
    let output_truncated = match bool_attr(attributes, "output_truncated") {
        Some(v) => v,
        None => return None,
    };
    let duration_ms = match count_attr(attributes, "duration_ms") {
        Some(v) => v,
        None => return None,
    };
    Some(
        ToolCall {
            id,
            session_id,
            turn_id: None,
            name,
            kind,
            success,
            input_bytes,
            output_bytes,
            output_line_count,
            output_truncated,
            duration_ms,
            completed_at: event.timestamp,
        },
    )
}

/// The turn of a tool call: the one that an MCP call names for its key, else
/// that of its span by the span's ancestors when that turn is a canonical turn
/// of the same session, else none.
pub open spec fn spec_resolve_turn(
    spans: Seq<RawSpanView>,
    span: RawSpanView,
    session_id: Seq<char>,
    id: Seq<char>,
    canonical: Set<Key>,
) -> Option<Seq<char>> {
    match lookup(spec_mcp_links(spans), (session_id, id)) {
        Some(t) => Some(t),
        None => match spec_ancestor_turn(spans, span) {
            Some(t) => if canonical.contains((session_id, t)) {
                Some(t)
            } else {
                None
            },
            None => None,
        },
    }
}

/// The turn of a tool call, as `spec_resolve_turn` says.
pub fn resolve_tool_turn(
    span: &RawSpan,
    tool: &ToolCall,
    mcp_links: &Vec<PairEntry>,
    parents: &Vec<PairEntry>,
    start_turn_ids: &Vec<PairEntry>,
    canonical_turns: &Vec<PairEntry>,
    Ghost(spans): Ghost<Seq<RawSpan>>,
) -> (r: Option<String>)
    requires
        links_of(spans, parents@, start_turn_ids@),
        pair_entries_view(mcp_links@) == mcp_entries(spans_view(spans)),
    ensures
        opt_text(r) == spec_resolve_turn(spans_view(spans), span@, tool.session_id@, tool.id@, pair_map(canonical_turns@).dom()),
{
    if let Some(turn_id) = pair_lookup(mcp_links, tool.session_id.as_str(), tool.id.as_str()) {
        return Some(turn_id.clone());
    }
    let turn_id = match ancestor_turn_id(span, parents, start_turn_ids) {
        Some(t) => t,
        None => return None,
    };
    if pair_lookup(canonical_turns, tool.session_id.as_str(), turn_id.as_str()).is_some() {
        Some(turn_id)
    } else {
        None
    }
}

// ---------------------------------------------------------------------------
// Turns
// ---------------------------------------------------------------------------

/// Everything the compiler knows of turn `t` from spans other than its own.
pub open spec fn spec_full_extras(spans: Seq<RawSpanView>, t: Seq<char>) -> ExtrasView {
    ExtrasView {
        model: sampling_input(spans, t, "model"@),
        cwd: sampling_input(spans, t, "cwd"@),
        ttft_ms: spec_turn_ttft(spans, t),
        prompt_length: spec_turn_prompt_length(spans, t),
    }
}

/// The canonical turn that a `session_task.turn` span stands for, when its
/// input names a turn whose session is known. Its model is its own, else that
/// of the turn's sampling request; its working directory, time to first token
/// and prompt length come from the other spans of the turn.
pub open spec fn spec_canonical_turn(spans: Seq<RawSpanView>, s: RawSpanView) -> Option<TurnView> {
    if s.name != "session_task.turn"@ {
        None
    } else {
        match and_then_string(spec_input_value(s, "turn.id"@)) {
            None => None,
            Some(t) => match spec_turn_session(spans, t) {
                None => None,
                Some(session) => {
                    let extras = spec_full_extras(spans, t);
                    Some(
                        TurnView {
                            id: t,
                            session_id: session,
                            model: match and_then_string(spec_input_value(s, "model"@)) {
                                Some(m) => Some(m),
                                None => extras.model,
                            },
                            reasoning_effort: and_then_string(spec_input_value(s, "codex.turn.reasoning_effort"@)),
                            started_at: s.started_at,
                            ended_at: s.ended_at,
                            ttft_ms: extras.ttft_ms,
                            input_tokens: and_then_count(spec_input_value(s, "codex.turn.token_usage.input_tokens"@)),
                            cached_input_tokens: and_then_count(
                                spec_input_value(s, "codex.turn.token_usage.cached_input_tokens"@),
                            ),
                            output_tokens: and_then_count(spec_input_value(s, "codex.turn.token_usage.output_tokens"@)),
                            reasoning_output_tokens: and_then_count(
                                spec_input_value(s, "codex.turn.token_usage.reasoning_output_tokens"@),
                            ),
                            total_tokens: and_then_count(spec_input_value(s, "codex.turn.token_usage.total_tokens"@)),
                            cwd: extras.cwd,
                            prompt_length: extras.prompt_length,
                        },
                    )
                },
            },
        }
    }
}

pub open spec fn turn_candidates_of(all: Seq<RawSpanView>, spans: Seq<RawSpanView>) -> Seq<TurnView>
    decreases spans.len(),
{
    if spans.len() == 0 {
        Seq::empty()
    } else {
        turn_candidates_of(all, spans.drop_last()) + match spec_canonical_turn(all, spans.last()) {
            Some(t) => seq![t],
            None => Seq::empty(),
        }
    }
}

/// The canonical turns of the spans, in span order.
pub open spec fn turn_candidates(spans: Seq<RawSpanView>) -> Seq<TurnView> {
    turn_candidates_of(spans, spans)
}

/// The `(session_id, id)` keys of the turns.
pub open spec fn turn_key_set(turns: Seq<TurnView>) -> Set<Key> {
    Set::new(|k: Key| exists|i: int| 0 <= i < turns.len() && turn_key(#[trigger] turns[i]) == k)
}

pub open spec fn with_prompt(e: ExtrasView, p: Option<i64>) -> ExtrasView {
    ExtrasView { model: e.model, cwd: e.cwd, ttft_ms: e.ttft_ms, prompt_length: p }
}

/// Sets the prompt length of each turn that has one.
fn merge_prompt_lengths(extras: &mut Vec<(String, TurnExtras)>, prompt_lengths: &Vec<(String, i64)>)
    requires
        keys_unique(extras_entries_view(old(extras)@)),
        keys_unique(text_i64_view(prompt_lengths@)),
    ensures
        keys_unique(extras_entries_view(final(extras)@)),
        forall|t: Seq<char>| #[trigger] extras_of(extras_map(final(extras)@), t) == with_prompt(
            extras_of(extras_map(old(extras)@), t),
            match lookup(entries_map(text_i64_view(prompt_lengths@)), t) {
                Some(n) => Some(n),
                None => extras_of(extras_map(old(extras)@), t).prompt_length,
            },
        ),
{
    let ghost start = extras_map(extras@);
    let ghost pv = text_i64_view(prompt_lengths@);
    let mut i: usize = 0;
    while i < prompt_lengths.len()
        invariant
            i <= prompt_lengths@.len(),
            pv == text_i64_view(prompt_lengths@),
            keys_unique(pv),
            keys_unique(extras_entries_view(extras@)),
            forall|t: Seq<char>| #[trigger] extras_of(extras_map(extras@), t) == with_prompt(
                extras_of(start, t),
                match lookup(entries_map(pv.take(i as int)), t) {
                    Some(n) => Some(n),
                    None => extras_of(start, t).prompt_length,
                },
            ),
        decreases prompt_lengths@.len() - i,
    {
        let turn_id = &prompt_lengths[i].0;
        let prompt_length = prompt_lengths[i].1;
        assert(pv.take(i + 1).drop_last() =~= pv.take(i as int));
        assert(pv.take(i + 1).last() == (turn_id@, prompt_length));
        let idx = extras_entry(extras, turn_id.as_str());
        let ghost m = extras_map(extras@);
        let ghost before = extras@;
        proof {
            lemma_entries_map_contains_at(extras_entries_view(extras@), idx as int);
        }
        let updated = TurnExtras {
            model: copy_text(&extras[idx].1.model),
            cwd: copy_text(&extras[idx].1.cwd),
            ttft_ms: extras[idx].1.ttft_ms,
            prompt_length: Some(prompt_length),
        };
        set_extras(extras, idx, updated);
        assert forall|t: Seq<char>| #[trigger] extras_of(extras_map(extras@), t) == with_prompt(
            extras_of(start, t),
            match lookup(entries_map(pv.take(i + 1)), t) {
                Some(n) => Some(n),
                None => extras_of(start, t).prompt_length,
            },
        ) by {
            assert(extras_of(m, t) == extras_of(m, t));
            if t == turn_id@ {
                assert(extras_of(m, t) == extras_entries_view(before)[idx as int].1);
            }
        }
        i = i + 1;
    }
    assert(pv.take(i as int) =~= pv);
}

/// The extras entry of turn `t`, if there is one.
fn extras_lookup<'a>(extras: &'a Vec<(String, TurnExtras)>, t: &str) -> (r: Option<&'a TurnExtras>)
    ensures
        match r {
            Some(e) => extras_of(extras_map(extras@), t@) == e@,
            None => extras_of(extras_map(extras@), t@) == no_extras(),
        },
{
    let ghost v = extras_entries_view(extras@);
    match find_key(extras, t) {
        Some(i) => {
            proof {
                assert forall|j: int| i < j < v.len() implies (#[trigger] v[j]).0 != t@ by {
                    assert(v[j].0 == extras@[j].0@);
                }
                lemma_entries_map_last(v, i as int, t@);
            }
            Some(&extras[i].1)
        },
        None => {
            proof {
                assert forall|j: int| 0 <= j < v.len() implies (#[trigger] v[j]).0 != t@ by {
                    assert(v[j].0 == extras@[j].0@);
                }
                lemma_entries_map_absent(v, t@);
            }
            None
        },
    }
}

/// The value that the entries give key `k`.
fn text_lookup<'a>(entries: &'a Vec<(String, String)>, k: &str) -> (r: Option<&'a String>)
    ensures
        match r {
            Some(s) => lookup(entries_map(text_pairs_view(entries@)), k@) == Some(s@),
            None => lookup(entries_map(text_pairs_view(entries@)), k@).is_none(),
        },
{
    let ghost v = text_pairs_view(entries@);
    match find_key(entries, k) {
        Some(i) => {
            proof {
                assert forall|j: int| i < j < v.len() implies (#[trigger] v[j]).0 != k@ by {
                    assert(v[j].0 == entries@[j].0@);
                }
                lemma_entries_map_last(v, i as int, k@);
            }
            Some(&entries[i].1)
        },
        None => {
            proof {
                assert forall|j: int| 0 <= j < v.len() implies (#[trigger] v[j]).0 != k@ by {
                    assert(v[j].0 == entries@[j].0@);
                }
                lemma_entries_map_absent(v, k@);
            }
            None
        },
    }
}

/// The canonical turn that a span stands for, given the sessions and extras of turns.
fn canonical_turn(
    raw: &RawSpan,
    sessions_by_turn: &Vec<(String, String)>,
    extras_by_turn: &Vec<(String, TurnExtras)>,
    Ghost(all): Ghost<Seq<RawSpanView>>,
) -> (r: Option<Turn>)
    requires
        forall|t: Seq<char>| #[trigger] lookup(entries_map(text_pairs_view(sessions_by_turn@)), t) == spec_turn_session(all, t),
        forall|t: Seq<char>| #[trigger] extras_of(extras_map(extras_by_turn@), t) == spec_full_extras(all, t),
    ensures
        match r {
            Some(t) => spec_canonical_turn(all, raw@) == Some(t@),
            None => spec_canonical_turn(all, raw@).is_none(),
        },
{
    if !text_eq(raw.name.as_str(), "session_task.turn") {
        return None;
    }
    let turn_id = match input_string(raw, "turn.id") {
        Some(t) => t,
        None => return None,
    };
    let session_id = match text_lookup(sessions_by_turn, turn_id.as_str()) {
        Some(s) => s.clone(),
        // `thread.id` alone is deliberately not a session key.
        None => return None,
    };
    let extras = extras_lookup(extras_by_turn, turn_id.as_str());
    assert(extras_of(extras_map(extras_by_turn@), turn_id@) == spec_full_extras(all, turn_id@));
    let model = match input_string(raw, "model") {
        Some(m) => Some(m),
        None => match extras {
            Some(e) => copy_text(&e.model),
            None => None,
        },
    };
    let ttft_ms = match extras {
        Some(e) => e.ttft_ms,
        None => None,
    };
    let cwd = match extras {
        Some(e) => copy_text(&e.cwd),
        None => None,
    };
    let prompt_length = match extras {
        Some(e) => e.prompt_length,
        None => None,
    };
    Some(
        Turn {
            id: turn_id,
            session_id,
            model,
            reasoning_effort: input_string(raw, "codex.turn.reasoning_effort"),
            started_at: raw.started_at,
            ended_at: raw.ended_at,
            ttft_ms,
            input_tokens: input_count(raw, "codex.turn.token_usage.input_tokens"),
            cached_input_tokens: input_count(raw, "codex.turn.token_usage.cached_input_tokens"),
            output_tokens: input_count(raw, "codex.turn.token_usage.output_tokens"),
            reasoning_output_tokens: input_count(raw, "codex.turn.token_usage.reasoning_output_tokens"),
            total_tokens: input_count(raw, "codex.turn.token_usage.total_tokens"),
            cwd,
            prompt_length,
        },
    )
}

/// The canonical turns in key order, their keys, and their sessions.
fn compile_turns(
    spans: &Vec<RawSpan>,
    sessions_by_turn: &Vec<(String, String)>,
    extras_by_turn: &Vec<(String, TurnExtras)>,
    sessions: &mut Vec<String>,
) -> (r: (Vec<Turn>, Vec<PairEntry>))
    requires
        forall|t: Seq<char>| #[trigger] lookup(entries_map(text_pairs_view(sessions_by_turn@)), t) == spec_turn_session(spans_view(spans@), t),
        forall|t: Seq<char>| #[trigger] extras_of(extras_map(extras_by_turn@), t) == spec_full_extras(spans_view(spans@), t),
        old(sessions)@.len() == 0,
    ensures
        sorted(turn_keys(turns_view(r.0@))),
        forall|k: Key| #[trigger] turns_with_key(turns_view(r.0@), k) == turns_with_key(turn_candidates(spans_view(spans@)), k),
        pair_map(r.1@).dom() == turn_key_set(turn_candidates(spans_view(spans@))),
        text_strictly_sorted(strings_view(final(sessions)@)),
        forall|x: Seq<char>| #[trigger] strings_view(final(sessions)@).contains(x) <==> exists|i: int|
            0 <= i < turn_candidates(spans_view(spans@)).len() && turn_candidates(spans_view(spans@))[i].session_id == x,
{
    let ghost all = spans_view(spans@);
    let mut turns: Vec<Turn> = Vec::new();
    let mut canonical_turns: Vec<PairEntry> = Vec::new();
    let mut i: usize = 0;
    proof {
        assert(turn_keys(turns_view(turns@)) =~= Seq::<Key>::empty());
        assert(pair_map(canonical_turns@).dom() =~= turn_key_set(turn_candidates_of(all, all.take(0))));
    }
    while i < spans.len()
        invariant
            i <= spans@.len(),
            all == spans_view(spans@),
            forall|t: Seq<char>| #[trigger] lookup(entries_map(text_pairs_view(sessions_by_turn@)), t) == spec_turn_session(all, t),
            forall|t: Seq<char>| #[trigger] extras_of(extras_map(extras_by_turn@), t) == spec_full_extras(all, t),
            sorted(turn_keys(turns_view(turns@))),
            forall|k: Key| #[trigger] turns_with_key(turns_view(turns@), k) == turns_with_key(turn_candidates_of(all, all.take(i as int)), k),
            pair_map(canonical_turns@).dom() == turn_key_set(turn_candidates_of(all, all.take(i as int))),
            text_strictly_sorted(strings_view(sessions@)),
            forall|x: Seq<char>| #[trigger] strings_view(sessions@).contains(x) <==> exists|j: int|
                0 <= j < turn_candidates_of(all, all.take(i as int)).len() && turn_candidates_of(all, all.take(i as int))[j].session_id == x,
        decreases spans@.len() - i,
    {
        let raw = &spans[i];
        let ghost before = turn_candidates_of(all, all.take(i as int));
        let ghost after = turn_candidates_of(all, all.take(i + 1));
        let ghost old_turns = turns_view(turns@);
        let ghost old_sessions = strings_view(sessions@);
        let ghost old_canon = pair_entries_view(canonical_turns@);
        proof {
            assert(all.take(i + 1).drop_last() =~= all.take(i as int));
            assert(all.take(i + 1).last() == raw@);
        }
        match canonical_turn(raw, sessions_by_turn, extras_by_turn, Ghost(all)) {
            Some(turn) => {
                let ghost tv = turn@;
                assert(after =~= before.push(tv));
                insert_session(sessions, &turn.session_id);
                canonical_turns.push(((turn.session_id.clone(), turn.id.clone()), raw.span_id.clone()));
                insert_turn(&mut turns, turn);
                proof {
                    assert(pair_entries_view(canonical_turns@) =~= old_canon.push((turn_key(tv), raw@.span_id)));
                    assert(pair_entries_view(canonical_turns@).drop_last() =~= old_canon);
                    assert(pair_map(canonical_turns@).dom() =~= turn_key_set(after)) by {
                        assert forall|k: Key| turn_key_set(after).contains(k) implies pair_map(canonical_turns@).dom().contains(k) by {
                            let j = choose|j: int| 0 <= j < after.len() && turn_key(#[trigger] after[j]) == k;
                            if j < before.len() {
                                assert(after[j] == before[j]);
                                assert(turn_key_set(before).contains(k));
                            }
                        }
                        assert forall|k: Key| pair_map(canonical_turns@).dom().contains(k) implies turn_key_set(after).contains(k) by {
                            if k != turn_key(tv) {
                                assert(turn_key_set(before).contains(k));
                                let j = choose|j: int| 0 <= j < before.len() && turn_key(#[trigger] before[j]) == k;
                                assert(after[j] == before[j]);
                            } else {
                                assert(after[before.len() as int] == tv);
                            }
                        }
                    }
                    assert forall|k: Key| #[trigger] turns_with_key(turns_view(turns@), k) == turns_with_key(after, k) by {
                        assert(after.drop_last() =~= before);
                        assert(after.last() == tv);
                        assert(turns_with_key(old_turns, k) == turns_with_key(before, k));
                    }
                    assert forall|x: Seq<char>| #[trigger] strings_view(sessions@).contains(x) <==> exists|j: int|
                        0 <= j < after.len() && after[j].session_id == x by {
                        assert(old_sessions.contains(x) <==> exists|j: int| 0 <= j < before.len() && before[j].session_id == x);
                        if exists|j: int| 0 <= j < after.len() && after[j].session_id == x {
                            let j = choose|j: int| 0 <= j < after.len() && after[j].session_id == x;
                            if j < before.len() {
                                assert(after[j] == before[j]);
                            }
                        }
                        if old_sessions.contains(x) {
                            let j = choose|j: int| 0 <= j < before.len() && before[j].session_id == x;
                            assert(after[j] == before[j]);
                        }
                        if x == tv.session_id {
                            assert(after[before.len() as int] == tv);
                        }
                    }
                }
            },
            None => {
                assert(after =~= before);
            },
        }
        i = i + 1;
    }
    assert(all.take(i as int) =~= all);
    (turns, canonical_turns)
}

// ---------------------------------------------------------------------------
// Tool calls and unknown telemetry
// ---------------------------------------------------------------------------

pub open spec fn with_turn(t: ToolCallView, turn_id: Option<Seq<char>>) -> ToolCallView {
    ToolCallView {
        id: t.id,
        session_id: t.session_id,
        turn_id,
        name: t.name,
        kind: t.kind,
        success: t.success,
        input_bytes: t.input_bytes,
        output_bytes: t.output_bytes,
        output_line_count: t.output_line_count,
        output_truncated: t.output_truncated,
        duration_ms: t.duration_ms,
        completed_at: t.completed_at,
    }
}

/// The tool call that an event of `span` reports, with its turn resolved.
pub open spec fn event_tool(all: Seq<RawSpanView>, span: RawSpanView, e: RawEventView, canonical: Set<Key>) -> Option<ToolCallView> {
    if spec_event_identity(e) == "codex.tool_result"@ {
        match spec_tool_call(e) {
            Some(t) => Some(with_turn(t, spec_resolve_turn(all, span, t.session_id, t.id, canonical))),
            None => None,
        }
    } else {
        None
    }
}

pub open spec fn events_tools(all: Seq<RawSpanView>, span: RawSpanView, events: Seq<RawEventView>, canonical: Set<Key>) -> Seq<ToolCallView>
    decreases events.len(),
{
    if events.len() == 0 {
        Seq::empty()
    } else {
        events_tools(all, span, events.drop_last(), canonical) + match event_tool(all, span, events.last(), canonical) {
            Some(t) => seq![t],
            None => Seq::empty(),
        }
    }
}

pub open spec fn tool_candidates_of(all: Seq<RawSpanView>, spans: Seq<RawSpanView>, canonical: Set<Key>) -> Seq<ToolCallView>
    decreases spans.len(),
{
    if spans.len() == 0 {
        Seq::empty()
    } else {
        tool_candidates_of(all, spans.drop_last(), canonical) + events_tools(all, spans.last(), spans.last().events, canonical)
    }
}

/// Every tool result of the spans, in order, with its turn resolved.
pub open spec fn tool_candidates(spans: Seq<RawSpanView>) -> Seq<ToolCallView> {
    tool_candidates_of(spans, spans, turn_key_set(turn_candidates(spans)))
}

pub open spec fn tool_fold(m: Map<Key, ToolCallView>, results: Seq<ToolCallView>) -> Map<Key, ToolCallView>
    decreases results.len(),
{
    if results.len() == 0 {
        m
    } else {
        tool_step(tool_fold(m, results.drop_last()), results.last())
    }
}

/// The tool call kept for each key: of the results in order, a later one
/// replaces the kept one only when it completed strictly later.
pub open spec fn tool_aggregate(results: Seq<ToolCallView>) -> Map<Key, ToolCallView> {
    tool_fold(Map::empty(), results)
}

pub proof fn lemma_tool_fold_append(m: Map<Key, ToolCallView>, a: Seq<ToolCallView>, b: Seq<ToolCallView>)
    ensures
        tool_fold(m, a + b) == tool_fold(tool_fold(m, a), b),
    decreases b.len(),
{
    if b.len() == 0 {
        assert(a + b =~= a);
    } else {
        assert((a + b).drop_last() =~= a + b.drop_last());
        assert((a + b).last() == b.last());
        lemma_tool_fold_append(m, a, b.drop_last());
    }
}

pub type UnknownObs = (TelemetryKind, Seq<char>, i64);

/// An event is unknown telemetry unless it is a tool result, a time to first
/// token, a user prompt, or one of the discarded events.
pub open spec fn event_unknown_obs(e: RawEventView) -> Seq<UnknownObs> {
    let n = spec_event_identity(e);
    if n == "codex.tool_result"@ || n == "codex.turn_ttft"@ || n == "codex.user_prompt"@ || spec_discarded_event(n) {
        Seq::empty()
    } else {
        seq![(TelemetryKind::Event, n, e.timestamp)]
    }
}

pub open spec fn events_unknown_obs(events: Seq<RawEventView>) -> Seq<UnknownObs>
    decreases events.len(),
{
    if events.len() == 0 {
        Seq::empty()
    } else {
        events_unknown_obs(events.drop_last()) + event_unknown_obs(events.last())
    }
}

/// A span is unknown telemetry when its name is not a known one.
pub open spec fn span_head_obs(s: RawSpanView) -> Seq<UnknownObs> {
    if !spec_known_span(s.name) {
        seq![(TelemetryKind::Span, s.name, s.started_at)]
    } else {
        Seq::empty()
    }
}

/// Every sighting of unknown telemetry: each span, then each of its events, in order.
pub open spec fn unknown_obs(spans: Seq<RawSpanView>) -> Seq<UnknownObs>
    decreases spans.len(),
{
    if spans.len() == 0 {
        Seq::empty()
    } else {
        unknown_obs(spans.drop_last()) + span_head_obs(spans.last()) + events_unknown_obs(spans.last().events)
    }
}

pub open spec fn unknown_fold(m: Map<UnknownKey, UnknownView>, obs: Seq<UnknownObs>) -> Map<UnknownKey, UnknownView>
    decreases obs.len(),
{
    if obs.len() == 0 {
        m
    } else {
        record_step(unknown_fold(m, obs.drop_last()), obs.last().1, obs.last().0, obs.last().2)
    }
}

/// The counts of unknown telemetry, per `(kind, name)`.
pub open spec fn unknown_aggregate(obs: Seq<UnknownObs>) -> Map<UnknownKey, UnknownView> {
    unknown_fold(Map::empty(), obs)
}

pub proof fn lemma_unknown_fold_append(m: Map<UnknownKey, UnknownView>, a: Seq<UnknownObs>, b: Seq<UnknownObs>)
    ensures
        unknown_fold(m, a + b) == unknown_fold(unknown_fold(m, a), b),
    decreases b.len(),
{
    if b.len() == 0 {
        assert(a + b =~= a);
    } else {
        assert((a + b).drop_last() =~= a + b.drop_last());
        assert((a + b).last() == b.last());
        lemma_unknown_fold_append(m, a, b.drop_last());
    }
}

pub open spec fn counts_at_most(m: Map<UnknownKey, UnknownView>, n: int) -> bool {
    forall|k: UnknownKey| #[trigger] m.dom().contains(k) ==> m[k].count <= n
}

proof fn lemma_unknown_fold_counts(m: Map<UnknownKey, UnknownView>, n: int, obs: Seq<UnknownObs>)
    requires
        counts_at_most(m, n),
        n >= 0,
        n + obs.len() < i64::MAX,
    ensures
        counts_at_most(unknown_fold(m, obs), n + obs.len()),
    decreases obs.len(),
{
    if obs.len() > 0 {
        lemma_unknown_fold_counts(m, n, obs.drop_last());
    }
}

/// The number of spans and events: an upper bound on the sightings of unknown telemetry.
pub open spec fn spans_and_events(spans: Seq<RawSpanView>) -> nat
    decreases spans.len(),
{
    if spans.len() == 0 {
        0
    } else {
        spans_and_events(spans.drop_last()) + 1 + spans.last().events.len()
    }
}

proof fn lemma_events_obs_len(events: Seq<RawEventView>)
    ensures
        events_unknown_obs(events).len() <= events.len(),
    decreases events.len(),
{
    if events.len() > 0 {
        lemma_events_obs_len(events.drop_last());
    }
}

pub proof fn lemma_spans_and_events_prefix(spans: Seq<RawSpanView>, i: int)
    requires
        0 <= i <= spans.len(),
    ensures
        spans_and_events(spans.take(i)) <= spans_and_events(spans),
    decreases spans.len(),
{
    if i < spans.len() {
        lemma_spans_and_events_prefix(spans.drop_last(), i);
        assert(spans.drop_last().take(i) =~= spans.take(i));
    } else {
        assert(spans.take(i) =~= spans);
    }
}

proof fn lemma_unknown_obs_len(spans: Seq<RawSpanView>)
    ensures
        unknown_obs(spans).len() <= spans_and_events(spans),
    decreases spans.len(),
{
    if spans.len() > 0 {
        lemma_unknown_obs_len(spans.drop_last());
        lemma_events_obs_len(spans.last().events);
    }
}


// ---------------------------------------------------------------------------
// The scan over spans and events
// ---------------------------------------------------------------------------

/// What a scan of the spans needs to resolve the turn of a tool call.
pub open spec fn scan_links(
    spans: Seq<RawSpan>,
    mcp_links: Seq<PairEntry>,
    parents: Seq<PairEntry>,
    start_turn_ids: Seq<PairEntry>,
) -> bool {
    &&& links_of(spans, parents, start_turn_ids)
    &&& pair_entries_view(mcp_links) == mcp_entries(spans_view(spans))
}

/// Reads the events of one span: keeps its tool results, adds their sessions,
/// and counts the span and its events where no rule classifies them.
fn scan_span(
    raw: &RawSpan,
    mcp_links: &Vec<PairEntry>,
    parents: &Vec<PairEntry>,
    start_turn_ids: &Vec<PairEntry>,
    canonical_turns: &Vec<PairEntry>,
    sessions: &mut Vec<String>,
    tools: &mut Vec<ToolCall>,
    unknown: &mut UnknownAccumulator,
    Ghost(spans): Ghost<Seq<RawSpan>>,
    Ghost(m): Ghost<Map<Key, ToolCallView>>,
    Ghost(n): Ghost<int>,
)
    requires
        scan_links(spans, mcp_links@, parents@, start_turn_ids@),
        text_strictly_sorted(strings_view(old(sessions)@)),
        lists_tools(tools_view(old(tools)@), m),
        old(unknown).wf(),
        0 <= n,
        counts_at_most(old(unknown).counted(), n),
        n + 1 + raw@.events.len() < i64::MAX,
    ensures
        text_strictly_sorted(strings_view(final(sessions)@)),
        forall|x: Seq<char>| #[trigger] strings_view(final(sessions)@).contains(x) <==> (strings_view(old(sessions)@).contains(x)
            || exists|k: int| 0 <= k < events_tools(spans_view(spans), raw@, raw@.events, pair_map(canonical_turns@).dom()).len()
                && events_tools(spans_view(spans), raw@, raw@.events, pair_map(canonical_turns@).dom())[k].session_id == x),
        lists_tools(tools_view(final(tools)@), tool_fold(m, events_tools(spans_view(spans), raw@, raw@.events, pair_map(canonical_turns@).dom()))),
        final(unknown).wf(),
        final(unknown).counted() == unknown_fold(old(unknown).counted(), span_head_obs(raw@) + events_unknown_obs(raw@.events)),
{
    proof {
        reveal_strlit("codex.tool_result");
        reveal_strlit("codex.turn_ttft");
        reveal_strlit("codex.user_prompt");
    }
    let ghost all = spans_view(spans);
    let ghost canonical = pair_map(canonical_turns@).dom();
    let ghost sv = raw@;
    let ghost old_sessions = strings_view(sessions@);
    let ghost m0 = unknown.counted();
    if !known_span(raw.name.as_str()) {
        unknown.record(raw.name.as_str(), TelemetryKind::Span, raw.started_at);
    }
    proof {
        let head = span_head_obs(sv);
        assert(unknown_fold(m0, head) == unknown.counted()) by {
            if head.len() > 0 {
                assert(head.drop_last() =~= Seq::<UnknownObs>::empty());
                assert(unknown_fold(m0, head.drop_last()) == m0);
                assert(head.last() == (TelemetryKind::Span, sv.name, sv.started_at));
            } else {
                assert(unknown_fold(m0, head) == m0);
            }
        }
        lemma_unknown_fold_counts(m0, n, head);
    }
    let mut j: usize = 0;
    while j < raw.events.len()
        invariant
            j <= raw@.events.len(),
            sv == raw@,
            all == spans_view(spans),
            canonical == pair_map(canonical_turns@).dom(),
            scan_links(spans, mcp_links@, parents@, start_turn_ids@),
            text_strictly_sorted(strings_view(sessions@)),
            forall|x: Seq<char>| #[trigger] strings_view(sessions@).contains(x) <==> (old_sessions.contains(x)
                || exists|k: int| 0 <= k < events_tools(all, sv, sv.events.take(j as int), canonical).len()
                    && events_tools(all, sv, sv.events.take(j as int), canonical)[k].session_id == x),
            lists_tools(tools_view(tools@), tool_fold(m, events_tools(all, sv, sv.events.take(j as int), canonical))),
            unknown.wf(),
            unknown.counted() == unknown_fold(m0, span_head_obs(sv) + events_unknown_obs(sv.events.take(j as int))),
            0 <= n,
            counts_at_most(m0, n),
            n + 1 + sv.events.len() < i64::MAX,
        decreases raw@.events.len() - j,
    {
        let event = &raw.events[j];
        let ghost ev = event@;
        let ghost pre = sv.events.take(j as int);
        let ghost post = sv.events.take(j + 1);
        let ghost before_tools = events_tools(all, sv, pre, canonical);
        let ghost before_sessions = strings_view(sessions@);
        let ghost before_counted = unknown.counted();
        proof {
            assert(post.drop_last() =~= pre);
            assert(post.last() == ev);
            assert(ev == sv.events[j as int]);
        }
        let name = event_identity(event);
        if text_eq(name.as_str(), "codex.tool_result") {
            match tool_call(raw, event) {
                Some(found) => {
                    let mut tool = found;
                    insert_session(sessions, &tool.session_id);
                    let turn = resolve_tool_turn(raw, &tool, mcp_links, parents, start_turn_ids, canonical_turns, Ghost(spans));
                    tool.turn_id = turn;
                    let ghost tv = tool@;
                    assert(event_tool(all, sv, ev, canonical) == Some(tv));
                    assert(events_tools(all, sv, post, canonical) =~= before_tools.push(tv));
                    insert_tool(tools, tool, Ghost(tool_fold(m, before_tools)));
                    proof {
                        let after_tools = before_tools.push(tv);
                        assert(after_tools.drop_last() =~= before_tools);
                        assert forall|x: Seq<char>| #[trigger] strings_view(sessions@).contains(x) <==> (old_sessions.contains(x)
                            || exists|k: int| 0 <= k < after_tools.len() && after_tools[k].session_id == x) by {
                            if exists|k: int| 0 <= k < after_tools.len() && after_tools[k].session_id == x {
                                let k = choose|k: int| 0 <= k < after_tools.len() && after_tools[k].session_id == x;
                                if k < before_tools.len() {
                                    assert(after_tools[k] == before_tools[k]);
                                }
                            }
                            if exists|k: int| 0 <= k < before_tools.len() && before_tools[k].session_id == x {
                                let k = choose|k: int| 0 <= k < before_tools.len() && before_tools[k].session_id == x;
                                assert(after_tools[k] == before_tools[k]);
                            }
                            if x == tv.session_id {
                                assert(after_tools[before_tools.len() as int] == tv);
                            }
                        }
                        assert(event_unknown_obs(ev) =~= Seq::<UnknownObs>::empty());
                        assert(events_unknown_obs(post) =~= events_unknown_obs(pre));
                    }
                },
                None => {
                    proof {
                        assert(event_tool(all, sv, ev, canonical).is_none());
                        assert(events_tools(all, sv, post, canonical) =~= before_tools);
                        assert(event_unknown_obs(ev) =~= Seq::<UnknownObs>::empty());
                        assert(events_unknown_obs(post) =~= events_unknown_obs(pre));
                    }
                },
            }
        } else {
            proof {
                assert(event_tool(all, sv, ev, canonical).is_none());
                assert(events_tools(all, sv, post, canonical) =~= before_tools);
            }
            if text_eq(name.as_str(), "codex.turn_ttft") || text_eq(name.as_str(), "codex.user_prompt") || discarded_event(name.as_str()) {
                proof {
                    assert(event_unknown_obs(ev) =~= Seq::<UnknownObs>::empty());
                    assert(events_unknown_obs(post) =~= events_unknown_obs(pre));
                }
            } else {
                let ghost obs = span_head_obs(sv) + events_unknown_obs(pre);
                proof {
                    lemma_events_obs_len(pre);
                    assert(obs.len() <= 1 + j);
                    lemma_unknown_fold_counts(m0, n, obs);
                    if before_counted.dom().contains((TelemetryKind::Event, name@)) {
                        assert(before_counted[(TelemetryKind::Event, name@)].count <= n + obs.len());
                    }
                }
                unknown.record(name.as_str(), TelemetryKind::Event, event.timestamp);
                proof {
                    let step = seq![(TelemetryKind::Event, name@, ev.timestamp)];
                    assert(event_unknown_obs(ev) =~= step);
                    assert(events_unknown_obs(post) =~= events_unknown_obs(pre) + step);
                    assert(span_head_obs(sv) + events_unknown_obs(post) =~= obs + step);
                    lemma_unknown_fold_append(m0, obs, step);
                    assert(step.drop_last() =~= Seq::<UnknownObs>::empty());
                    assert(unknown_fold(unknown_fold(m0, obs), step.drop_last()) == unknown_fold(m0, obs));
                    assert(unknown_fold(unknown_fold(m0, obs), step) == record_step(unknown_fold(m0, obs), name@, TelemetryKind::Event, ev.timestamp));
                }
            }
        }
        j = j + 1;
    }
    proof {
        assert(sv.events.take(j as int) =~= sv.events);
    }
}


/// Reads every span: the tool calls kept per key, the sessions they name, and
/// the counts of unknown telemetry.
#[verifier::spinoff_prover]
#[verifier::rlimit(40)]
fn compile_tools_and_unknown(
    spans: &Vec<RawSpan>,
    mcp_links: &Vec<PairEntry>,
    parents: &Vec<PairEntry>,
    start_turn_ids: &Vec<PairEntry>,
    canonical_turns: &Vec<PairEntry>,
    sessions: &mut Vec<String>,
) -> (r: (Vec<ToolCall>, Vec<UnknownTelemetry>))
    requires
        scan_links(spans@, mcp_links@, parents@, start_turn_ids@),
        text_strictly_sorted(strings_view(old(sessions)@)),
        spans_and_events(spans_view(spans@)) < i64::MAX,
    ensures
        text_strictly_sorted(strings_view(final(sessions)@)),
        forall|x: Seq<char>| #[trigger] strings_view(final(sessions)@).contains(x) <==> (strings_view(old(sessions)@).contains(x)
            || exists|k: int| 0 <= k < tool_candidates_of(spans_view(spans@), spans_view(spans@), pair_map(canonical_turns@).dom()).len()
                && tool_candidates_of(spans_view(spans@), spans_view(spans@), pair_map(canonical_turns@).dom())[k].session_id == x),
        lists_tools(tools_view(r.0@), tool_aggregate(tool_candidates_of(spans_view(spans@), spans_view(spans@), pair_map(canonical_turns@).dom()))),
        lists_unknown(unknown_view(r.1@), unknown_aggregate(unknown_obs(spans_view(spans@)))),
{
    let ghost all = spans_view(spans@);
    let ghost canonical = pair_map(canonical_turns@).dom();
    let ghost old_sessions = strings_view(sessions@);
    let mut tools: Vec<ToolCall> = Vec::new();
    let mut unknown = UnknownAccumulator::new();
    let mut i: usize = 0;
    proof {
        assert(tool_candidates_of(all, all.take(0), canonical) =~= Seq::<ToolCallView>::empty());
        assert(unknown_obs(all.take(0)) =~= Seq::<UnknownObs>::empty());
        assert(tools_view(tools@) =~= Seq::<ToolCallView>::empty());
        assert(tool_keys(tools_view(tools@)) =~= Seq::<Key>::empty());
    }
    while i < spans.len()
        invariant
            i <= spans@.len(),
            all == spans_view(spans@),
            canonical == pair_map(canonical_turns@).dom(),
            scan_links(spans@, mcp_links@, parents@, start_turn_ids@),
            spans_and_events(all) < i64::MAX,
            text_strictly_sorted(strings_view(sessions@)),
            forall|x: Seq<char>| #[trigger] strings_view(sessions@).contains(x) <==> (old_sessions.contains(x)
                || exists|k: int| 0 <= k < tool_candidates_of(all, all.take(i as int), canonical).len()
                    && tool_candidates_of(all, all.take(i as int), canonical)[k].session_id == x),
            lists_tools(tools_view(tools@), tool_aggregate(tool_candidates_of(all, all.take(i as int), canonical))),
            unknown.wf(),
            unknown.counted() == unknown_aggregate(unknown_obs(all.take(i as int))),
        decreases spans@.len() - i,
    {
        let raw = &spans[i];
        let ghost sv = raw@;
        let ghost pre = all.take(i as int);
        let ghost post = all.take(i + 1);
        let ghost before_tools = tool_candidates_of(all, pre, canonical);
        let ghost span_tools = events_tools(all, sv, sv.events, canonical);
        let ghost obs = unknown_obs(pre);
        proof {
            assert(post.drop_last() =~= pre);
            assert(post.last() == sv);
            lemma_unknown_obs_len(pre);
            lemma_spans_and_events_prefix(all, i + 1);
            lemma_unknown_fold_counts(Map::empty(), 0, obs);
        }
        scan_span(
            raw,
            mcp_links,
            parents,
            start_turn_ids,
            canonical_turns,
            sessions,
            &mut tools,
            &mut unknown,
            Ghost(spans@),
            Ghost(tool_aggregate(before_tools)),
            Ghost(obs.len() as int),
        );
        proof {
            let after_tools = tool_candidates_of(all, post, canonical);
            assert(after_tools == before_tools + span_tools);
            lemma_tool_fold_append(Map::empty(), before_tools, span_tools);
            let extra = span_head_obs(sv) + events_unknown_obs(sv.events);
            assert(unknown_obs(post) =~= obs + extra);
            lemma_unknown_fold_append(Map::empty(), obs, extra);
            assert forall|x: Seq<char>| #[trigger] strings_view(sessions@).contains(x) <==> (old_sessions.contains(x)
                || exists|k: int| 0 <= k < after_tools.len() && after_tools[k].session_id == x) by {
                if exists|k: int| 0 <= k < after_tools.len() && after_tools[k].session_id == x {
                    let k = choose|k: int| 0 <= k < after_tools.len() && after_tools[k].session_id == x;
                    if k < before_tools.len() {
                        assert(after_tools[k] == before_tools[k]);
                    } else {
                        assert(after_tools[k] == span_tools[k - before_tools.len()]);
                    }
                }
                if exists|k: int| 0 <= k < before_tools.len() && before_tools[k].session_id == x {
                    let k = choose|k: int| 0 <= k < before_tools.len() && before_tools[k].session_id == x;
                    assert(after_tools[k] == before_tools[k]);
                }
                if exists|k: int| 0 <= k < span_tools.len() && span_tools[k].session_id == x {
                    let k = choose|k: int| 0 <= k < span_tools.len() && span_tools[k].session_id == x;
                    assert(after_tools[before_tools.len() + k] == span_tools[k]);
                }
            }
        }
        i = i + 1;
    }
    proof {
        assert(all.take(i as int) =~= all);
    }
    let listed = unknown.finish();
    (tools, listed)
}

/// The sessions of a compilation: that of every canonical turn and of every
/// tool result that could be read.
pub open spec fn compiled_sessions(spans: Seq<RawSpanView>) -> Set<Seq<char>> {
    Set::new(|x: Seq<char>|
        (exists|i: int| 0 <= i < turn_candidates(spans).len() && turn_candidates(spans)[i].session_id == x)
        || (exists|i: int| 0 <= i < tool_candidates(spans).len() && tool_candidates(spans)[i].session_id == x))
}

/// What a compilation of `spans` is: the sessions of its canonical turns and
/// tool results, sorted and each once; the canonical turns ordered by key,
/// those of one key in span order; one tool call per key, the latest result;
/// the counts of unknown telemetry ordered by kind name and name; every
/// record's session among the sessions; a tool's turn only by an explicit key;
/// and no negative integer.
pub open spec fn compiles_to(all: Seq<RawSpanView>, c: CompiledTelemetry) -> bool {
    &&& text_strictly_sorted(strings_view(c.sessions@))
    &&& forall|x: Seq<char>| #[trigger] strings_view(c.sessions@).contains(x) <==> compiled_sessions(all).contains(x)
    &&& sorted(turn_keys(turns_view(c.turns@)))
    &&& forall|k: Key| #[trigger] turns_with_key(turns_view(c.turns@), k) == turns_with_key(turn_candidates(all), k)
    &&& lists_tools(tools_view(c.tool_calls@), tool_aggregate(tool_candidates(all)))
    &&& lists_unknown(unknown_view(c.unknown@), unknown_aggregate(unknown_obs(all)))
    &&& forall|i: int| 0 <= i < c.turns@.len() ==> strings_view(c.sessions@).contains(#[trigger] turns_view(c.turns@)[i].session_id)
    &&& forall|i: int| 0 <= i < c.tool_calls@.len() ==> strings_view(c.sessions@).contains(#[trigger] tools_view(c.tool_calls@)[i].session_id)
    &&& forall|i: int| 0 <= i < c.tool_calls@.len() ==> linked_by_key(all, turn_key_set(turn_candidates(all)), #[trigger] tools_view(c.tool_calls@)[i])
    &&& forall|i: int| 0 <= i < c.turns@.len() ==> turn_nonneg(#[trigger] turns_view(c.turns@)[i])
    &&& forall|i: int| 0 <= i < c.tool_calls@.len() ==> tool_nonneg(#[trigger] tools_view(c.tool_calls@)[i])
    &&& forall|i: int| 0 <= i < c.unknown@.len() ==> unknown_nonneg(#[trigger] unknown_view(c.unknown@)[i])
}

/// Converts a request in memory, as `compiles_to` says. Raw identifiers and
/// attributes do not leave this function.
pub fn compile(request: OtlpRequest) -> (r: CompiledTelemetry)
    requires
        spans_and_events(spec_raw_spans(request)) < i64::MAX,
    ensures
        compiles_to(spec_raw_spans(request), r),
{
    let spans = raw_spans(&request);
    proof {
        lemma_request_times_nonneg(request);
    }
    compile_spans(spans)
}

/// Compiles the spans of a request.
fn compile_spans(spans: Vec<RawSpan>) -> (r: CompiledTelemetry)
    requires
        spans_and_events(spans_view(spans@)) < i64::MAX,
        times_nonneg(spans_view(spans@)),
    ensures
        compiles_to(spans_view(spans@), r),
{
    let ghost all = spans_view(spans@);
    let parents = parent_map(&spans);
    let start_turn_ids = turn_start_ids(&spans);
    let sessions_by_turn = sessions_by_turn(&spans, &parents, &start_turn_ids);
    let mut extras = extras_by_turn(&spans);
    let prompt_lengths = prompt_lengths_by_turn(&spans, &parents, &start_turn_ids);
    merge_prompt_lengths(&mut extras, &prompt_lengths);
    proof {
        assert forall|t: Seq<char>| #[trigger] extras_of(extras_map(extras@), t) == spec_full_extras(all, t) by {
            assert(lookup(entries_map(text_i64_view(prompt_lengths@)), t) == spec_turn_prompt_length(all, t));
        }
    }
    let mut sessions: Vec<String> = Vec::new();
    let (turns, canonical_turns) = compile_turns(&spans, &sessions_by_turn, &extras, &mut sessions);
    let ghost turn_sessions = strings_view(sessions@);
    let mcp = mcp_links(&spans);
    let (tool_calls, unknown) = compile_tools_and_unknown(&spans, &mcp, &parents, &start_turn_ids, &canonical_turns, &mut sessions);
    proof {
        assert forall|x: Seq<char>| #[trigger] strings_view(sessions@).contains(x) <==> compiled_sessions(all).contains(x) by {
            assert(turn_sessions.contains(x) <==> exists|j: int| 0 <= j < turn_candidates(all).len() && turn_candidates(all)[j].session_id == x);
        }
        let tv = turns_view(turns@);
        let turn_cands = turn_candidates(all);
        assert forall|i: int| 0 <= i < turns@.len() implies strings_view(sessions@).contains(#[trigger] tv[i].session_id) by {
            lemma_turn_with_own_key(tv, i);
            lemma_turn_of_key_is_member(turn_cands, turn_key(tv[i]), tv[i]);
            let j = choose|j: int| 0 <= j < turn_cands.len() && turn_cands[j] == tv[i];
            assert(compiled_sessions(all).contains(tv[i].session_id));
        }
        let cands = tool_candidates(all);
        let ov = tools_view(tool_calls@);
        lemma_tool_candidates_linked(all, all, turn_key_set(turn_cands));
        assert forall|i: int| 0 <= i < tool_calls@.len() implies strings_view(sessions@).contains(#[trigger] ov[i].session_id)
            && linked_by_key(all, turn_key_set(turn_cands), ov[i]) by {
            let j = law_kept_tool_call_is_latest(cands, tool_key(ov[i]));
            assert(cands[j] == ov[i]);
            assert(compiled_sessions(all).contains(ov[i].session_id));
        }
        lemma_turn_candidates_nonneg(all, all);
        assert forall|i: int| 0 <= i < turns@.len() implies turn_nonneg(#[trigger] tv[i]) by {
            lemma_turn_with_own_key(tv, i);
            lemma_turn_of_key_is_member(turn_cands, turn_key(tv[i]), tv[i]);
            let j = choose|j: int| 0 <= j < turn_cands.len() && turn_cands[j] == tv[i];
        }
        lemma_tool_candidates_nonneg(all, all, turn_key_set(turn_cands));
        assert forall|i: int| 0 <= i < tool_calls@.len() implies tool_nonneg(#[trigger] ov[i]) by {
            let j = law_kept_tool_call_is_latest(cands, tool_key(ov[i]));
            assert(cands[j] == ov[i]);
        }
        let obs = unknown_obs(all);
        let uv = unknown_view(unknown@);
        lemma_unknown_obs_len(all);
        lemma_sightings_nonneg(all);
        assert forall|i: int| 0 <= i < unknown@.len() implies unknown_nonneg(#[trigger] uv[i]) by {
            let key = (uv[i].kind, uv[i].name);
            assert(unknown_aggregate(obs).dom().contains(key));
            let w = law_unknown_counts_sightings(obs, key);
            lemma_count_obs_positive(obs, key, w.0);
            assert(obs[w.0].2 >= 0);
            assert(obs[w.1].2 >= 0);
        }
    }
    CompiledTelemetry { sessions, turns, tool_calls, unknown }
}

// ---------------------------------------------------------------------------
// A request body
// ---------------------------------------------------------------------------

/// Why a request body is not compiled.
#[derive(Debug, PartialEq, Eq)]
pub enum BodyError {
    /// The body is not a protobuf trace export request; the text of the decode error.
    Decode(String),
    /// The request holds `i64::MAX` spans and events or more, more than a count can hold.
    TooManyItems,
}

/// Decodes a protobuf request body and compiles it: the decode error where the
/// body does not decode, `TooManyItems` where the request holds `i64::MAX`
/// spans and events or more, else the compilation of the request.
pub fn compile_body(body: &[u8]) -> (r: Result<CompiledTelemetry, BodyError>)
    ensures
        match decoded_request(body@) {
            Err(e) => r matches Err(BodyError::Decode(m)) && m@ == e,
            Ok(q) => if spans_and_events(spec_raw_spans(q)) < i64::MAX {
                r matches Ok(c) && compiles_to(spec_raw_spans(q), c)
            } else {
                r == Err::<CompiledTelemetry, BodyError>(BodyError::TooManyItems)
            },
        },
{
    let request = match decode_request(body) {
        Ok(q) => q,
        Err(e) => return Err(BodyError::Decode(e)),
    };
    let spans = raw_spans(&request);
    if !within_count_limit(&spans) {
        return Err(BodyError::TooManyItems);
    }
    proof {
        lemma_request_times_nonneg(request);
    }
    Ok(compile_spans(spans))
}

} // verus!
