//! What the compiler learns of a turn outside its `session_task.turn` span: its
//! session and prompt length from `codex.user_prompt` events that its spans
//! carry, its working directory and fallback model from `run_sampling_request`,
//! and its time to first token from `codex.turn_ttft`.
use vstd::prelude::*;

use crate::entries::{
    contains_text, entries_map, find_key, lemma_entries_map_contains_at, lemma_push_contains, keys_unique, lemma_entries_map_absent,
    lemma_entries_map_update, lemma_keys_unique_push, lookup,
};
use crate::links::{ancestor_turn_id, pair_entries_view, parent_entries, spec_ancestor_turn, start_entries, PairEntry};
use crate::model::strings_view;
use crate::raw::{spans_view, RawEventView, RawSpan, RawSpanView};
use crate::read::{event_identity, input_string, spec_event_identity, spec_input_value};
use crate::text::text_eq;
use crate::value::{and_then_count, and_then_string, count_attr, map_get, opt_text, string_attr};

verus! {

pub open spec fn text_pairs_view(v: Seq<(String, String)>) -> Seq<(Seq<char>, Seq<char>)> {
    v.map_values(|e: (String, String)| (e.0@, e.1@))
}

pub open spec fn text_i64_view(v: Seq<(String, i64)>) -> Seq<(Seq<char>, i64)> {
    v.map_values(|e: (String, i64)| (e.0@, e.1))
}

/// The one value that all observations of `key` agree on; `None` where there is
/// no observation of `key`, or two that disagree.
pub open spec fn spec_unique_value<V>(obs: Seq<(Seq<char>, V)>, key: Seq<char>) -> Option<V> {
    if exists|i: int| 0 <= i < obs.len() && (#[trigger] obs[i]).0 == key {
        let i = choose|i: int| 0 <= i < obs.len() && (#[trigger] obs[i]).0 == key;
        if forall|j: int| 0 <= j < obs.len() && (#[trigger] obs[j]).0 == key ==> obs[j].1 == obs[i].1 {
            Some(obs[i].1)
        } else {
            None
        }
    } else {
        None
    }
}

/// The spans of `all` that the parent and turn-start entries were built from.
pub open spec fn links_of(spans: Seq<RawSpan>, parents: Seq<PairEntry>, starts: Seq<PairEntry>) -> bool {
    &&& pair_entries_view(parents) == parent_entries(spans_view(spans))
    &&& pair_entries_view(starts) == start_entries(spans_view(spans))
}

// ---------------------------------------------------------------------------
// Sessions
// ---------------------------------------------------------------------------

/// `(turn, conversation.id)` for a `codex.user_prompt` event that names a conversation.
pub open spec fn event_session_obs(e: RawEventView, turn: Seq<char>) -> Seq<(Seq<char>, Seq<char>)> {
    if spec_event_identity(e) == "codex.user_prompt"@ {
        match and_then_string(map_get(e.attributes, "conversation.id"@)) {
            Some(s) => seq![(turn, s)],
            None => Seq::empty(),
        }
    } else {
        Seq::empty()
    }
}

pub open spec fn events_session_obs(events: Seq<RawEventView>, turn: Seq<char>) -> Seq<(Seq<char>, Seq<char>)>
    decreases events.len(),
{
    if events.len() == 0 {
        Seq::empty()
    } else {
        events_session_obs(events.drop_last(), turn) + event_session_obs(events.last(), turn)
    }
}

pub open spec fn session_obs_of(all: Seq<RawSpanView>, spans: Seq<RawSpanView>) -> Seq<(Seq<char>, Seq<char>)>
    decreases spans.len(),
{
    if spans.len() == 0 {
        Seq::empty()
    } else {
        session_obs_of(all, spans.drop_last()) + match spec_ancestor_turn(all, spans.last()) {
            Some(t) => events_session_obs(spans.last().events, t),
            None => Seq::empty(),
        }
    }
}

/// Every `(turn, conversation.id)` that a `codex.user_prompt` event gives, the
/// turn being that of the event's span by its ancestors, in order.
pub open spec fn session_obs(spans: Seq<RawSpanView>) -> Seq<(Seq<char>, Seq<char>)> {
    session_obs_of(spans, spans)
}

/// The session of a turn: the one conversation that its prompts name.
pub open spec fn spec_turn_session(spans: Seq<RawSpanView>, turn: Seq<char>) -> Option<Seq<char>> {
    spec_unique_value(session_obs(spans), turn)
}

fn session_observations(spans: &Vec<RawSpan>, parents: &Vec<PairEntry>, starts: &Vec<PairEntry>) -> (r: Vec<(String, String)>)
    requires
        links_of(spans@, parents@, starts@),
    ensures
        text_pairs_view(r@) == session_obs(spans_view(spans@)),
{
    let ghost all = spans_view(spans@);
    let mut out: Vec<(String, String)> = Vec::new();
    let mut i: usize = 0;
    while i < spans.len()
        invariant
            i <= spans@.len(),
            all == spans_view(spans@),
            links_of(spans@, parents@, starts@),
            text_pairs_view(out@) == session_obs_of(all, all.take(i as int)),
        decreases spans@.len() - i,
    {
        let span = &spans[i];
        let ghost anc = spec_ancestor_turn(all, span@);
        let ghost before = text_pairs_view(out@);
        let mut j: usize = 0;
        while j < span.events.len()
            invariant
                j <= span.events@.len(),
                all == spans_view(spans@),
                links_of(spans@, parents@, starts@),
                span == spans@[i as int],
                anc == spec_ancestor_turn(all, span@),
                text_pairs_view(out@) == before + match anc {
                    Some(t) => events_session_obs(span@.events.take(j as int), t),
                    None => Seq::empty(),
                },
            decreases span.events@.len() - j,
        {
            let event = &span.events[j];
            let ghost ev = span@.events[j as int];
            assert(ev == event@);
            let ghost prev = text_pairs_view(out@);
            assert(span@.events.take(j + 1).drop_last() =~= span@.events.take(j as int));
            assert(span@.events.take(j + 1).last() == ev);
            let identity = event_identity(event);
            if text_eq(identity.as_str(), "codex.user_prompt") {
                match string_attr(&event.attributes, "conversation.id") {
                    Some(session_id) => {
                        match ancestor_turn_id(span, parents, starts) {
                            Some(turn_id) => {
                                out.push((turn_id, session_id));
                                assert(text_pairs_view(out@) =~= prev.push((turn_id@, session_id@)));
                            },
                            None => {},
                        }
                    },
                    None => {},
                }
            }
            proof {
                match anc {
                    Some(t) => {
                        assert(text_pairs_view(out@) =~= before + events_session_obs(span@.events.take(j + 1), t));
                    },
                    None => {
                        assert(text_pairs_view(out@) =~= before);
                    },
                }
            }
            j = j + 1;
        }
        proof {
            assert(span@.events.take(j as int) =~= span@.events);
            assert(all.take(i + 1).drop_last() =~= all.take(i as int));
            assert(all.take(i + 1).last() == span@);
        }
        i = i + 1;
    }
    assert(all.take(i as int) =~= all);
    out
}

/// The value that all observations of `key` agree on, if there is one.
fn unique_session(obs: &Vec<(String, String)>, key: &str) -> (r: Option<String>)
    ensures
        opt_text(r) == spec_unique_value(text_pairs_view(obs@), key@),
{
    let ghost v = text_pairs_view(obs@);
    let mut found: Option<usize> = None;
    let mut conflict = false;
    let mut j: usize = 0;
    while j < obs.len()
        invariant
            j <= obs@.len(),
            v == text_pairs_view(obs@),
            match found {
                None => forall|k: int| 0 <= k < j ==> (#[trigger] v[k]).0 != key@,
                Some(f) => f < j && v[f as int].0 == key@ && (conflict <==> exists|k: int|
                    0 <= k < j && (#[trigger] v[k]).0 == key@ && v[k].1 != v[f as int].1),
            },
            found is None ==> !conflict,
        decreases obs@.len() - j,
    {
        assert(v[j as int].0 == obs@[j as int].0@ && v[j as int].1 == obs@[j as int].1@);
        if text_eq(obs[j].0.as_str(), key) {
            match found {
                None => {
                    found = Some(j);
                },
                Some(f) => {
                    if !text_eq(obs[j].1.as_str(), obs[f].1.as_str()) {
                        conflict = true;
                    }
                },
            }
        }
        j = j + 1;
    }
    match found {
        None => None,
        Some(f) => {
            if conflict {
                proof {
                    let k = choose|k: int| 0 <= k < j && (#[trigger] v[k]).0 == key@ && v[k].1 != v[f as int].1;
                    let c = choose|i: int| 0 <= i < v.len() && (#[trigger] v[i]).0 == key@;
                    if forall|m: int| 0 <= m < v.len() && (#[trigger] v[m]).0 == key@ ==> v[m].1 == v[c].1 {
                        assert(v[k].1 == v[c].1);
                        assert(v[f as int].1 == v[c].1);
                    }
                }
                None
            } else {
                proof {
                    let c = choose|i: int| 0 <= i < v.len() && (#[trigger] v[i]).0 == key@;
                    assert(v[c].1 == v[f as int].1);
                }
                Some(obs[f].1.clone())
            }
        },
    }
}

/// The session of each turn whose prompts name exactly one conversation.
pub fn sessions_by_turn(spans: &Vec<RawSpan>, parents: &Vec<PairEntry>, start_turn_ids: &Vec<PairEntry>) -> (r: Vec<(String, String)>)
    requires
        links_of(spans@, parents@, start_turn_ids@),
    ensures
        forall|t: Seq<char>| #[trigger] lookup(entries_map(text_pairs_view(r@)), t) == spec_turn_session(spans_view(spans@), t),
{
    let obs = session_observations(spans, parents, start_turn_ids);
    let ghost v = text_pairs_view(obs@);
    let mut out: Vec<(String, String)> = Vec::new();
    let mut seen: Vec<String> = Vec::new();
    let mut i: usize = 0;
    while i < obs.len()
        invariant
            i <= obs@.len(),
            v == text_pairs_view(obs@),
            v == session_obs(spans_view(spans@)),
            forall|t: Seq<char>| strings_view(seen@).contains(t) <==> exists|k: int| 0 <= k < i && (#[trigger] v[k]).0 == t,
            forall|t: Seq<char>| #[trigger] lookup(entries_map(text_pairs_view(out@)), t) == if strings_view(seen@).contains(t) {
                spec_unique_value(v, t)
            } else {
                None
            },
        decreases obs@.len() - i,
    {
        let turn_id = &obs[i].0;
        let ghost t = turn_id@;
        let ghost seen_before = strings_view(seen@);
        let ghost out_before = text_pairs_view(out@);
        let already = contains_text(&seen, turn_id.as_str());
        proof {
            if already {
                let j = choose|j: int| 0 <= j < seen@.len() && (#[trigger] seen@[j])@ == t;
                assert(strings_view(seen@)[j] == t);
            } else {
                if strings_view(seen@).contains(t) {
                    let j = choose|j: int| 0 <= j < strings_view(seen@).len() && strings_view(seen@)[j] == t;
                    assert(seen@[j]@ == t);
                }
            }
        }
        if !already {
            seen.push(turn_id.clone());
            assert(strings_view(seen@) =~= seen_before.push(t));
            assert forall|u: Seq<char>| #[trigger] strings_view(seen@).contains(u) == (seen_before.contains(u) || u == t) by {
                lemma_push_contains(seen_before, t, u);
            }
            let unique = unique_session(&obs, turn_id.as_str());
            match unique {
                Some(session_id) => {
                    out.push((turn_id.clone(), session_id));
                    assert(text_pairs_view(out@) =~= out_before.push((t, session_id@)));
                    assert(text_pairs_view(out@).drop_last() =~= out_before);
                },
                None => {},
            }
            assert forall|u: Seq<char>| #[trigger] lookup(entries_map(text_pairs_view(out@)), u) == if strings_view(seen@).contains(u) {
                spec_unique_value(v, u)
            } else {
                None
            } by {
                assert(lookup(entries_map(out_before), u) == if seen_before.contains(u) {
                    spec_unique_value(v, u)
                } else {
                    None
                });
                if u != t {
                    assert(strings_view(seen@).contains(u) == seen_before.contains(u));
                } else {
                    assert(strings_view(seen@).contains(t));
                    assert(!seen_before.contains(t));
                }
            }
        }
        assert forall|u: Seq<char>| strings_view(seen@).contains(u) implies exists|k: int| 0 <= k < i + 1 && (#[trigger] v[k]).0 == u by {
            if u != t {
                if strings_view(seen@).contains(u) && !seen_before.contains(u) {
                    let j = choose|j: int| 0 <= j < strings_view(seen@).len() && strings_view(seen@)[j] == u;
                    assert(j == seen_before.len());
                }
            } else {
                assert(v[i as int].0 == t);
            }
        }
        assert forall|u: Seq<char>| (exists|k: int| 0 <= k < i + 1 && (#[trigger] v[k]).0 == u) implies strings_view(seen@).contains(u) by {
            if u == t {
                if !already {
                    assert(strings_view(seen@)[seen_before.len() as int] == t);
                }
            } else {
                let k = choose|k: int| 0 <= k < i + 1 && (#[trigger] v[k]).0 == u;
                assert(k < i);
                assert(seen_before.contains(u));
                if !already {
                    let j = choose|j: int| 0 <= j < seen_before.len() && seen_before[j] == u;
                    assert(strings_view(seen@)[j] == u);
                }
            }
        }
        i = i + 1;
    }
    proof {
        assert forall|t: Seq<char>| #[trigger] lookup(entries_map(text_pairs_view(out@)), t) == spec_turn_session(spans_view(spans@), t) by {
            if !strings_view(seen@).contains(t) {
                assert(!exists|k: int| 0 <= k < v.len() && (#[trigger] v[k]).0 == t);
            }
        }
    }
    out
}

// ---------------------------------------------------------------------------
// Prompt lengths
// ---------------------------------------------------------------------------

/// `(turn, prompt_length)` for a `codex.user_prompt` event that gives a length.
pub open spec fn event_prompt_obs(e: RawEventView, turn: Seq<char>) -> Seq<(Seq<char>, i64)> {
    if spec_event_identity(e) == "codex.user_prompt"@ {
        match and_then_count(map_get(e.attributes, "prompt_length"@)) {
            Some(n) => seq![(turn, n)],
            None => Seq::empty(),
        }
    } else {
        Seq::empty()
    }
}

pub open spec fn events_prompt_obs(events: Seq<RawEventView>, turn: Seq<char>) -> Seq<(Seq<char>, i64)>
    decreases events.len(),
{
    if events.len() == 0 {
        Seq::empty()
    } else {
        events_prompt_obs(events.drop_last(), turn) + event_prompt_obs(events.last(), turn)
    }
}

pub open spec fn prompt_obs_of(all: Seq<RawSpanView>, spans: Seq<RawSpanView>) -> Seq<(Seq<char>, i64)>
    decreases spans.len(),
{
    if spans.len() == 0 {
        Seq::empty()
    } else {
        prompt_obs_of(all, spans.drop_last()) + match spec_ancestor_turn(all, spans.last()) {
            Some(t) => events_prompt_obs(spans.last().events, t),
            None => Seq::empty(),
        }
    }
}

/// Every `(turn, prompt_length)` that a `codex.user_prompt` event gives, the
/// turn being that of the event's span by its ancestors, in order.
pub open spec fn prompt_obs(spans: Seq<RawSpanView>) -> Seq<(Seq<char>, i64)> {
    prompt_obs_of(spans, spans)
}

/// The prompt length of a turn: the one length that its prompts give.
pub open spec fn spec_turn_prompt_length(spans: Seq<RawSpanView>, turn: Seq<char>) -> Option<i64> {
    spec_unique_value(prompt_obs(spans), turn)
}

fn prompt_observations(spans: &Vec<RawSpan>, parents: &Vec<PairEntry>, starts: &Vec<PairEntry>) -> (r: Vec<(String, i64)>)
    requires
        links_of(spans@, parents@, starts@),
    ensures
        text_i64_view(r@) == prompt_obs(spans_view(spans@)),
{
    let ghost all = spans_view(spans@);
    let mut out: Vec<(String, i64)> = Vec::new();
    let mut i: usize = 0;
    while i < spans.len()
        invariant
            i <= spans@.len(),
            all == spans_view(spans@),
            links_of(spans@, parents@, starts@),
            text_i64_view(out@) == prompt_obs_of(all, all.take(i as int)),
        decreases spans@.len() - i,
    {
        let span = &spans[i];
        proof {
            assert(all.take(i + 1).drop_last() =~= all.take(i as int));
            assert(all.take(i + 1).last() == span@);
        }
        match ancestor_turn_id(span, parents, starts) {
            Some(turn_id) => {
                let ghost before = text_i64_view(out@);
                let mut j: usize = 0;
                while j < span.events.len()
                    invariant
                        j <= span.events@.len(),
                        text_i64_view(out@) == before + events_prompt_obs(span@.events.take(j as int), turn_id@),
                    decreases span.events@.len() - j,
                {
                    let event = &span.events[j];
                    let ghost prev = text_i64_view(out@);
                    assert(span@.events[j as int] == event@);
                    assert(span@.events.take(j + 1).drop_last() =~= span@.events.take(j as int));
                    assert(span@.events.take(j + 1).last() == event@);
                    let identity = event_identity(event);
                    if text_eq(identity.as_str(), "codex.user_prompt") {
                        match count_attr(&event.attributes, "prompt_length") {
                            Some(prompt_length) => {
                                out.push((turn_id.clone(), prompt_length));
                                assert(text_i64_view(out@) =~= prev.push((turn_id@, prompt_length)));
                            },
                            None => {},
                        }
                    }
                    assert(text_i64_view(out@) =~= before + events_prompt_obs(span@.events.take(j + 1), turn_id@));
                    j = j + 1;
                }
                assert(span@.events.take(j as int) =~= span@.events);
            },
            None => {},
        }
        assert(text_i64_view(out@) =~= prompt_obs_of(all, all.take(i + 1)));
        i = i + 1;
    }
    assert(all.take(i as int) =~= all);
    out
}

/// The value that all observations of `key` agree on, if there is one.
fn unique_prompt_length(obs: &Vec<(String, i64)>, key: &str) -> (r: Option<i64>)
    ensures
        r == spec_unique_value(text_i64_view(obs@), key@),
{
    let ghost v = text_i64_view(obs@);
    let mut found: Option<usize> = None;
    let mut conflict = false;
    let mut j: usize = 0;
    while j < obs.len()
        invariant
            j <= obs@.len(),
            v == text_i64_view(obs@),
            match found {
                None => forall|k: int| 0 <= k < j ==> (#[trigger] v[k]).0 != key@,
                Some(f) => f < j && v[f as int].0 == key@ && (conflict <==> exists|k: int|
                    0 <= k < j && (#[trigger] v[k]).0 == key@ && v[k].1 != v[f as int].1),
            },
            found is None ==> !conflict,
        decreases obs@.len() - j,
    {
        assert(v[j as int].0 == obs@[j as int].0@ && v[j as int].1 == obs@[j as int].1);
        if text_eq(obs[j].0.as_str(), key) {
            match found {
                None => {
                    found = Some(j);
                },
                Some(f) => {
                    if obs[j].1 != obs[f].1 {
                        conflict = true;
                    }
                },
            }
        }
        j = j + 1;
    }
    match found {
        None => None,
        Some(f) => {
            if conflict {
                proof {
                    let k = choose|k: int| 0 <= k < j && (#[trigger] v[k]).0 == key@ && v[k].1 != v[f as int].1;
                    let c = choose|i: int| 0 <= i < v.len() && (#[trigger] v[i]).0 == key@;
                    if forall|m: int| 0 <= m < v.len() && (#[trigger] v[m]).0 == key@ ==> v[m].1 == v[c].1 {
                        assert(v[k].1 == v[c].1);
                        assert(v[f as int].1 == v[c].1);
                    }
                }
                None
            } else {
                proof {
                    let c = choose|i: int| 0 <= i < v.len() && (#[trigger] v[i]).0 == key@;
                    assert(v[c].1 == v[f as int].1);
                }
                Some(obs[f].1)
            }
        },
    }
}

/// The prompt length of each turn whose prompts give exactly one length.
pub fn prompt_lengths_by_turn(spans: &Vec<RawSpan>, parents: &Vec<PairEntry>, start_turn_ids: &Vec<PairEntry>) -> (r: Vec<(String, i64)>)
    requires
        links_of(spans@, parents@, start_turn_ids@),
    ensures
        keys_unique(text_i64_view(r@)),
        forall|t: Seq<char>| #[trigger] lookup(entries_map(text_i64_view(r@)), t) == spec_turn_prompt_length(spans_view(spans@), t),
{
    let obs = prompt_observations(spans, parents, start_turn_ids);
    let ghost v = text_i64_view(obs@);
    let mut out: Vec<(String, i64)> = Vec::new();
    let mut seen: Vec<String> = Vec::new();
    let mut i: usize = 0;
    while i < obs.len()
        invariant
            i <= obs@.len(),
            v == text_i64_view(obs@),
            v == prompt_obs(spans_view(spans@)),
            keys_unique(text_i64_view(out@)),
            forall|j: int| 0 <= j < out@.len() ==> strings_view(seen@).contains(#[trigger] text_i64_view(out@)[j].0),
            forall|t: Seq<char>| strings_view(seen@).contains(t) <==> exists|k: int| 0 <= k < i && (#[trigger] v[k]).0 == t,
            forall|t: Seq<char>| #[trigger] lookup(entries_map(text_i64_view(out@)), t) == if strings_view(seen@).contains(t) {
                spec_unique_value(v, t)
            } else {
                None
            },
        decreases obs@.len() - i,
    {
        let turn_id = &obs[i].0;
        let ghost t = turn_id@;
        let ghost seen_before = strings_view(seen@);
        let ghost out_before = text_i64_view(out@);
        let already = contains_text(&seen, turn_id.as_str());
        proof {
            if already {
                let j = choose|j: int| 0 <= j < seen@.len() && (#[trigger] seen@[j])@ == t;
                assert(strings_view(seen@)[j] == t);
            } else {
                if strings_view(seen@).contains(t) {
                    let j = choose|j: int| 0 <= j < strings_view(seen@).len() && strings_view(seen@)[j] == t;
                    assert(seen@[j]@ == t);
                }
            }
        }
        if !already {
            seen.push(turn_id.clone());
            assert(strings_view(seen@) =~= seen_before.push(t));
            assert forall|u: Seq<char>| #[trigger] strings_view(seen@).contains(u) == (seen_before.contains(u) || u == t) by {
                lemma_push_contains(seen_before, t, u);
            }
            let unique = unique_prompt_length(&obs, turn_id.as_str());
            match unique {
                Some(prompt_length) => {
                    out.push((turn_id.clone(), prompt_length));
                    assert(text_i64_view(out@) =~= out_before.push((t, prompt_length)));
                    assert(text_i64_view(out@).drop_last() =~= out_before);
                    proof {
                        assert forall|j: int| 0 <= j < out_before.len() implies (#[trigger] out_before[j]).0 != t by {
                            assert(seen_before.contains(out_before[j].0));
                        }
                        lemma_keys_unique_push(out_before, (t, prompt_length));
                    }
                },
                None => {},
            }
            assert forall|u: Seq<char>| #[trigger] lookup(entries_map(text_i64_view(out@)), u) == if strings_view(seen@).contains(u) {
                spec_unique_value(v, u)
            } else {
                None
            } by {
                assert(lookup(entries_map(out_before), u) == if seen_before.contains(u) {
                    spec_unique_value(v, u)
                } else {
                    None
                });
                if u != t {
                    assert(strings_view(seen@).contains(u) == seen_before.contains(u));
                } else {
                    assert(strings_view(seen@).contains(t));
                    assert(!seen_before.contains(t));
                }
            }
            assert forall|j: int| 0 <= j < out@.len() implies strings_view(seen@).contains(#[trigger] text_i64_view(out@)[j].0) by {
                if j < out_before.len() {
                    assert(text_i64_view(out@)[j] == out_before[j]);
                    assert(seen_before.contains(out_before[j].0));
                }
            }
        }
        assert forall|u: Seq<char>| strings_view(seen@).contains(u) implies exists|k: int| 0 <= k < i + 1 && (#[trigger] v[k]).0 == u by {
            if u != t {
                if strings_view(seen@).contains(u) && !seen_before.contains(u) {
                    let j = choose|j: int| 0 <= j < strings_view(seen@).len() && strings_view(seen@)[j] == u;
                    assert(j == seen_before.len());
                }
            } else {
                assert(v[i as int].0 == t);
            }
        }
        assert forall|u: Seq<char>| (exists|k: int| 0 <= k < i + 1 && (#[trigger] v[k]).0 == u) implies strings_view(seen@).contains(u) by {
            if u == t {
                if !already {
                    assert(strings_view(seen@)[seen_before.len() as int] == t);
                }
            } else {
                let k = choose|k: int| 0 <= k < i + 1 && (#[trigger] v[k]).0 == u;
                assert(k < i);
                assert(seen_before.contains(u));
                if !already {
                    let j = choose|j: int| 0 <= j < seen_before.len() && seen_before[j] == u;
                    assert(strings_view(seen@)[j] == u);
                }
            }
        }
        i = i + 1;
    }
    proof {
        assert forall|t: Seq<char>| #[trigger] lookup(entries_map(text_i64_view(out@)), t) == spec_turn_prompt_length(spans_view(spans@), t) by {
            if !strings_view(seen@).contains(t) {
                assert(!exists|k: int| 0 <= k < v.len() && (#[trigger] v[k]).0 == t);
            }
        }
    }
    out
}

// ---------------------------------------------------------------------------
// Sampling requests
// ---------------------------------------------------------------------------

/// What the compiler gathers of a turn from spans other than its own.
#[derive(Debug, Default)]
pub struct TurnExtras {
    pub model: Option<String>,
    pub cwd: Option<String>,
    pub ttft_ms: Option<i64>,
    pub prompt_length: Option<i64>,
}

pub struct ExtrasView {
    pub model: Option<Seq<char>>,
    pub cwd: Option<Seq<char>>,
    pub ttft_ms: Option<i64>,
    pub prompt_length: Option<i64>,
}

impl View for TurnExtras {
    type V = ExtrasView;

    open spec fn view(&self) -> ExtrasView {
        ExtrasView {
            model: opt_text(self.model),
            cwd: opt_text(self.cwd),
            ttft_ms: self.ttft_ms,
            prompt_length: self.prompt_length,
        }
    }
}

pub open spec fn no_extras() -> ExtrasView {
    ExtrasView { model: None, cwd: None, ttft_ms: None, prompt_length: None }
}

pub open spec fn extras_entries_view(v: Seq<(String, TurnExtras)>) -> Seq<(Seq<char>, ExtrasView)> {
    v.map_values(|e: (String, TurnExtras)| (e.0@, e.1@))
}

pub open spec fn extras_map(v: Seq<(String, TurnExtras)>) -> Map<Seq<char>, ExtrasView> {
    entries_map(extras_entries_view(v))
}

/// The extras of a turn, none where the turn has no entry.
pub open spec fn extras_of(m: Map<Seq<char>, ExtrasView>, t: Seq<char>) -> ExtrasView {
    if m.dom().contains(t) {
        m[t]
    } else {
        no_extras()
    }
}

/// The span is a `run_sampling_request` of turn `t`.
pub open spec fn is_sampling_for(s: RawSpanView, t: Seq<char>) -> bool {
    s.name == "run_sampling_request"@ && and_then_string(spec_input_value(s, "turn_id"@)) == Some(t)
}

/// The span is a `try_run_sampling_request` of turn `t`.
pub open spec fn is_ttft_span_for(s: RawSpanView, t: Seq<char>) -> bool {
    s.name == "try_run_sampling_request"@ && and_then_string(spec_input_value(s, "turn_id"@)) == Some(t)
}

/// The input `key` of the first `run_sampling_request` of turn `t` that has it.
pub open spec fn sampling_input(spans: Seq<RawSpanView>, t: Seq<char>, key: Seq<char>) -> Option<Seq<char>>
    decreases spans.len(),
{
    if spans.len() == 0 {
        None
    } else {
        let prev = sampling_input(spans.drop_last(), t, key);
        if prev is Some {
            prev
        } else if is_sampling_for(spans.last(), t) {
            and_then_string(spec_input_value(spans.last(), key))
        } else {
            None
        }
    }
}

/// The `duration_ms` of the last `codex.turn_ttft` event, if there is one.
pub open spec fn events_last_ttft(events: Seq<RawEventView>) -> Option<Option<i64>>
    decreases events.len(),
{
    if events.len() == 0 {
        None
    } else if spec_event_identity(events.last()) == "codex.turn_ttft"@ {
        Some(and_then_count(map_get(events.last().attributes, "duration_ms"@)))
    } else {
        events_last_ttft(events.drop_last())
    }
}

/// The `duration_ms` of the last `codex.turn_ttft` event under a
/// `try_run_sampling_request` of turn `t`, if there is one.
pub open spec fn last_ttft(spans: Seq<RawSpanView>, t: Seq<char>) -> Option<Option<i64>>
    decreases spans.len(),
{
    if spans.len() == 0 {
        None
    } else if is_ttft_span_for(spans.last(), t) && events_last_ttft(spans.last().events) is Some {
        events_last_ttft(spans.last().events)
    } else {
        last_ttft(spans.drop_last(), t)
    }
}

pub open spec fn spec_turn_ttft(spans: Seq<RawSpanView>, t: Seq<char>) -> Option<i64> {
    match last_ttft(spans, t) {
        Some(x) => x,
        None => None,
    }
}

/// The extras of turn `t` that the sampling requests give.
pub open spec fn spec_extras(spans: Seq<RawSpanView>, t: Seq<char>) -> ExtrasView {
    ExtrasView {
        model: sampling_input(spans, t, "model"@),
        cwd: sampling_input(spans, t, "cwd"@),
        ttft_ms: spec_turn_ttft(spans, t),
        prompt_length: None,
    }
}

/// The extras of turn `t` while the events of a `try_run_sampling_request` of
/// turn `tid` are read, `events` being those read so far.
pub open spec fn extras_during(pre: Seq<RawSpanView>, events: Seq<RawEventView>, tid: Seq<char>, t: Seq<char>) -> ExtrasView {
    ExtrasView {
        model: sampling_input(pre, t, "model"@),
        cwd: sampling_input(pre, t, "cwd"@),
        ttft_ms: if t == tid && events_last_ttft(events) is Some {
            events_last_ttft(events)->Some_0
        } else {
            spec_turn_ttft(pre, t)
        },
        prompt_length: None,
    }
}

pub fn copy_text(o: &Option<String>) -> (r: Option<String>)
    ensures
        opt_text(r) == opt_text(*o),
{
    match o {
        Some(s) => Some(s.clone()),
        None => None,
    }
}

/// The index of the entry of `turn_id`, made with no extras where there is none.
pub fn extras_entry(extras: &mut Vec<(String, TurnExtras)>, turn_id: &str) -> (idx: usize)
    requires
        keys_unique(extras_entries_view(old(extras)@)),
    ensures
        keys_unique(extras_entries_view(final(extras)@)),
        idx < final(extras)@.len(),
        final(extras)@[idx as int].0@ == turn_id@,
        forall|t: Seq<char>| #[trigger] extras_of(extras_map(final(extras)@), t) == extras_of(extras_map(old(extras)@), t),
{
    match find_key(extras, turn_id) {
        Some(i) => i,
        None => {
            let ghost before = extras_entries_view(extras@);
            extras.push((String::from_str(turn_id), TurnExtras { model: None, cwd: None, ttft_ms: None, prompt_length: None }));
            proof {
                assert(extras_entries_view(extras@) =~= before.push((turn_id@, no_extras())));
                assert(extras_entries_view(extras@).drop_last() =~= before);
                assert forall|j: int| 0 <= j < before.len() implies (#[trigger] before[j]).0 != turn_id@ by {
                    assert(before[j].0 == extras@[j].0@);
                }
                lemma_keys_unique_push(before, (turn_id@, no_extras()));
                lemma_entries_map_absent(before, turn_id@);
            }
            extras.len() - 1
        },
    }
}

/// Sets the entry at `idx` to `value`, keeping its key.
pub fn set_extras(extras: &mut Vec<(String, TurnExtras)>, idx: usize, value: TurnExtras)
    requires
        keys_unique(extras_entries_view(old(extras)@)),
        idx < old(extras)@.len(),
    ensures
        keys_unique(extras_entries_view(final(extras)@)),
        final(extras)@.len() == old(extras)@.len(),
        extras_map(final(extras)@) == extras_map(old(extras)@).insert(old(extras)@[idx as int].0@, value@),
{
    let ghost before = extras_entries_view(extras@);
    let ghost v = value@;
    let key = extras[idx].0.clone();
    extras.set(idx, (key, value));
    proof {
        assert(extras_entries_view(extras@) =~= before.update(idx as int, (before[idx as int].0, v)));
        lemma_entries_map_update(before, idx as int, v);
    }
}

/// The model, working directory and time to first token of each turn, from its
/// sampling requests.
pub fn extras_by_turn(spans: &Vec<RawSpan>) -> (r: Vec<(String, TurnExtras)>)
    ensures
        keys_unique(extras_entries_view(r@)),
        forall|t: Seq<char>| #[trigger] extras_of(extras_map(r@), t) == spec_extras(spans_view(spans@), t),
{
    proof {
        reveal_strlit("run_sampling_request");
        reveal_strlit("try_run_sampling_request");
        assert("run_sampling_request"@.len() == 20);
        assert("try_run_sampling_request"@.len() == 24);
    }
    let ghost all = spans_view(spans@);
    let mut extras: Vec<(String, TurnExtras)> = Vec::new();
    assert(extras_map(extras@) =~= Map::<Seq<char>, ExtrasView>::empty());
    let mut i: usize = 0;
    while i < spans.len()
        invariant
            i <= spans@.len(),
            all == spans_view(spans@),
            "run_sampling_request"@ != "try_run_sampling_request"@,
            keys_unique(extras_entries_view(extras@)),
            forall|t: Seq<char>| #[trigger] extras_of(extras_map(extras@), t) == spec_extras(all.take(i as int), t),
        decreases spans@.len() - i,
    {
        let span = &spans[i];
        let ghost pre = all.take(i as int);
        let ghost cur = all.take(i + 1);
        assert(cur.drop_last() =~= pre);
        assert(cur.last() == span@);
        if text_eq(span.name.as_str(), "run_sampling_request") {
            match input_string(span, "turn_id") {
                Some(turn_id) => {
                    let idx = extras_entry(&mut extras, turn_id.as_str());
                    let ghost m = extras_map(extras@);
                    assert(extras_entries_view(extras@)[idx as int].0 == turn_id@);
                    proof {
                        lemma_entries_map_contains_at(extras_entries_view(extras@), idx as int);
                    }
                    let cwd = if extras[idx].1.cwd.is_none() {
                        input_string(span, "cwd")
                    } else {
                        copy_text(&extras[idx].1.cwd)
                    };
                    let model = if extras[idx].1.model.is_none() {
                        input_string(span, "model")
                    } else {
                        copy_text(&extras[idx].1.model)
                    };
                    let updated = TurnExtras {
                        model,
                        cwd,
                        ttft_ms: extras[idx].1.ttft_ms,
                        prompt_length: extras[idx].1.prompt_length,
                    };
                    set_extras(&mut extras, idx, updated);
                    assert forall|t: Seq<char>| #[trigger] extras_of(extras_map(extras@), t) == spec_extras(cur, t) by {
                        assert(extras_of(m, t) == spec_extras(pre, t));
                        if t != turn_id@ {
                            assert(!is_sampling_for(span@, t));
                        }
                    }
                },
                None => {
                    assert forall|t: Seq<char>| #[trigger] extras_of(extras_map(extras@), t) == spec_extras(cur, t) by {
                        assert(extras_of(extras_map(extras@), t) == spec_extras(pre, t));
                    }
                },
            }
        } else if text_eq(span.name.as_str(), "try_run_sampling_request") {
            match input_string(span, "turn_id") {
                Some(turn_id) => {
                    let ghost tid = turn_id@;
                    let mut j: usize = 0;
                    while j < span.events.len()
                        invariant
                            j <= span.events@.len(),
                            cur.len() == i + 1,
                            span@ == cur.last(),
                            is_ttft_span_for(span@, tid),
                            !is_sampling_for(span@, tid),
                            tid == turn_id@,
                            keys_unique(extras_entries_view(extras@)),
                            forall|t: Seq<char>| #[trigger] extras_of(extras_map(extras@), t) == extras_during(pre, span@.events.take(j as int), tid, t),
                        decreases span.events@.len() - j,
                    {
                        let event = &span.events[j];
                        assert(span@.events[j as int] == event@);
                        assert(span@.events.take(j + 1).drop_last() =~= span@.events.take(j as int));
                        assert(span@.events.take(j + 1).last() == event@);
                        let identity = event_identity(event);
                        if text_eq(identity.as_str(), "codex.turn_ttft") {
                            let idx = extras_entry(&mut extras, turn_id.as_str());
                            let ghost m = extras_map(extras@);
                            let ghost extras_before_set = extras@;
                            proof {
                                lemma_entries_map_contains_at(extras_entries_view(extras@), idx as int);
                            }
                            let updated = TurnExtras {
                                model: copy_text(&extras[idx].1.model),
                                cwd: copy_text(&extras[idx].1.cwd),
                                ttft_ms: count_attr(&event.attributes, "duration_ms"),
                                prompt_length: extras[idx].1.prompt_length,
                            };
                            set_extras(&mut extras, idx, updated);
                            assert forall|t: Seq<char>| #[trigger] extras_of(extras_map(extras@), t) == extras_during(pre, span@.events.take(j + 1), tid, t) by {
                                assert(extras_of(m, t) == extras_during(pre, span@.events.take(j as int), tid, t));
                                if t == tid {
                                    assert(events_last_ttft(span@.events.take(j + 1)) == Some(
                                        and_then_count(map_get(event@.attributes, "duration_ms"@)),
                                    ));
                                    assert(extras_of(m, t) == extras_entries_view(extras_before_set)[idx as int].1);
                                }
                            }
                        }
                        j = j + 1;
                    }
                    assert(span@.events.take(j as int) =~= span@.events);
                    assert forall|t: Seq<char>| #[trigger] extras_of(extras_map(extras@), t) == spec_extras(cur, t) by {
                        if t != tid {
                            assert(!is_ttft_span_for(span@, t));
                        }
                        assert(!is_sampling_for(span@, t));
                    }
                },
                None => {
                    assert forall|t: Seq<char>| #[trigger] extras_of(extras_map(extras@), t) == spec_extras(cur, t) by {
                        assert(!is_ttft_span_for(span@, t));
                        assert(!is_sampling_for(span@, t));
                    }
                },
            }
        } else {
            assert forall|t: Seq<char>| #[trigger] extras_of(extras_map(extras@), t) == spec_extras(cur, t) by {
                assert(!is_ttft_span_for(span@, t));
                assert(!is_sampling_for(span@, t));
            }
        }
        i = i + 1;
    }
    assert(all.take(i as int) =~= all);
    extras
}

} // verus!
