//! The links that the compiler may follow between spans: a span's parent
//! within its trace, the turn that a `turn/start` span opens, and the turn that
//! an `mcp.tools.call` span names for a tool call.
use vstd::prelude::*;

use crate::entries::{
    entries_map, find_pair_key, lemma_entries_map_absent, lemma_entries_map_finite,
    lemma_entries_map_last, lookup,
};
use crate::model::strings_view;
use crate::order::Key;
use crate::raw::{spans_view, RawSpan, RawSpanView};
use crate::read::{input_string, spec_input_value};
use crate::entries::contains_text;
use crate::text::text_eq;
use crate::value::{and_then_string, opt_text};

verus! {

pub type PairEntry = ((String, String), String);

pub open spec fn pair_entries_view(entries: Seq<PairEntry>) -> Seq<(Key, Seq<char>)> {
    entries.map_values(|e: PairEntry| ((e.0.0@, e.0.1@), e.1@))
}

pub open spec fn pair_map(entries: Seq<PairEntry>) -> Map<Key, Seq<char>> {
    entries_map(pair_entries_view(entries))
}

/// The value of key `(a, b)`: that of its last entry.
pub fn pair_lookup<'a>(entries: &'a Vec<PairEntry>, a: &str, b: &str) -> (r: Option<&'a String>)
    ensures
        match r {
            Some(v) => lookup(pair_map(entries@), (a@, b@)) == Some(v@),
            None => lookup(pair_map(entries@), (a@, b@)).is_none(),
        },
{
    let ghost view = pair_entries_view(entries@);
    match find_pair_key(entries, a, b) {
        Some(i) => {
            proof {
                assert forall|j: int| i < j < view.len() implies (#[trigger] view[j]).0 != (a@, b@) by {
                    assert(!(entries@[j].0.0@ == a@ && entries@[j].0.1@ == b@));
                }
                lemma_entries_map_last(view, i as int, (a@, b@));
            }
            Some(&entries[i].1)
        },
        None => {
            proof {
                assert forall|j: int| 0 <= j < view.len() implies (#[trigger] view[j]).0 != (a@, b@) by {
                    assert(!(entries@[j].0.0@ == a@ && entries@[j].0.1@ == b@));
                }
                lemma_entries_map_absent(view, (a@, b@));
            }
            None
        },
    }
}

// ---------------------------------------------------------------------------
// Parents
// ---------------------------------------------------------------------------

/// `((trace_id, span_id), parent_span_id)` of every span that has a parent, in order.
pub open spec fn parent_entries(spans: Seq<RawSpanView>) -> Seq<(Key, Seq<char>)>
    decreases spans.len(),
{
    if spans.len() == 0 {
        Seq::empty()
    } else {
        let s = spans.last();
        let rest = parent_entries(spans.drop_last());
        if s.parent_span_id.len() > 0 {
            rest.push(((s.trace_id, s.span_id), s.parent_span_id))
        } else {
            rest
        }
    }
}

/// The parent of each span that has one, by trace and span id.
pub open spec fn spec_parents(spans: Seq<RawSpanView>) -> Map<Key, Seq<char>> {
    entries_map(parent_entries(spans))
}

/// The parent entries of the spans.
pub fn parent_map(spans: &Vec<RawSpan>) -> (r: Vec<PairEntry>)
    ensures
        pair_entries_view(r@) == parent_entries(spans_view(spans@)),
{
    let mut out: Vec<PairEntry> = Vec::new();
    let mut i: usize = 0;
    while i < spans.len()
        invariant
            i <= spans@.len(),
            pair_entries_view(out@) == parent_entries(spans_view(spans@.take(i as int))),
        decreases spans@.len() - i,
    {
        let span = &spans[i];
        assert(spans_view(spans@.take(i + 1)).drop_last() =~= spans_view(spans@.take(i as int)));
        assert(spans_view(spans@.take(i + 1)).last() == span@);
        if span.parent_span_id.as_str().unicode_len() > 0 {
            out.push(((span.trace_id.clone(), span.span_id.clone()), span.parent_span_id.clone()));
            assert(pair_entries_view(out@) =~= parent_entries(spans_view(spans@.take(i + 1))));
        } else {
            assert(pair_entries_view(out@) =~= parent_entries(spans_view(spans@.take(i + 1))));
        }
        i = i + 1;
    }
    assert(spans@.take(i as int) =~= spans@);
    out
}

// ---------------------------------------------------------------------------
// Turn starts
// ---------------------------------------------------------------------------

/// `((trace_id, span_id), turn.id)` of every `turn/start` span whose input
/// names a turn, in order.
pub open spec fn start_entries(spans: Seq<RawSpanView>) -> Seq<(Key, Seq<char>)>
    decreases spans.len(),
{
    if spans.len() == 0 {
        Seq::empty()
    } else {
        let s = spans.last();
        let rest = start_entries(spans.drop_last());
        if s.name == "turn/start"@ {
            match and_then_string(spec_input_value(s, "turn.id"@)) {
                Some(t) => rest.push(((s.trace_id, s.span_id), t)),
                None => rest,
            }
        } else {
            rest
        }
    }
}

/// The turn that each `turn/start` span opens, by trace and span id.
pub open spec fn spec_starts(spans: Seq<RawSpanView>) -> Map<Key, Seq<char>> {
    entries_map(start_entries(spans))
}

/// The turn-start entries of the spans.
pub fn turn_start_ids(spans: &Vec<RawSpan>) -> (r: Vec<PairEntry>)
    ensures
        pair_entries_view(r@) == start_entries(spans_view(spans@)),
{
    let mut out: Vec<PairEntry> = Vec::new();
    let mut i: usize = 0;
    while i < spans.len()
        invariant
            i <= spans@.len(),
            pair_entries_view(out@) == start_entries(spans_view(spans@.take(i as int))),
        decreases spans@.len() - i,
    {
        let span = &spans[i];
        assert(spans_view(spans@.take(i + 1)).drop_last() =~= spans_view(spans@.take(i as int)));
        assert(spans_view(spans@.take(i + 1)).last() == span@);
        if text_eq(span.name.as_str(), "turn/start") {
            match input_string(span, "turn.id") {
                Some(turn_id) => {
                    out.push(((span.trace_id.clone(), span.span_id.clone()), turn_id));
                },
                None => {},
            }
        }
        assert(pair_entries_view(out@) =~= start_entries(spans_view(spans@.take(i + 1))));
        i = i + 1;
    }
    assert(spans@.take(i as int) =~= spans@);
    out
}

// ---------------------------------------------------------------------------
// MCP links
// ---------------------------------------------------------------------------

/// `((conversation.id, tool.call_id), turn.id)` of every `mcp.tools.call` span
/// whose input names all three, in order.
pub open spec fn mcp_entries(spans: Seq<RawSpanView>) -> Seq<(Key, Seq<char>)>
    decreases spans.len(),
{
    if spans.len() == 0 {
        Seq::empty()
    } else {
        let s = spans.last();
        let rest = mcp_entries(spans.drop_last());
        if s.name == "mcp.tools.call"@ {
            match (
                and_then_string(spec_input_value(s, "conversation.id"@)),
                and_then_string(spec_input_value(s, "tool.call_id"@)),
                and_then_string(spec_input_value(s, "turn.id"@)),
            ) {
                (Some(session), Some(call), Some(turn)) => rest.push(((session, call), turn)),
                _ => rest,
            }
        } else {
            rest
        }
    }
}

/// The turn that an MCP call names, by session and call id.
pub open spec fn spec_mcp_links(spans: Seq<RawSpanView>) -> Map<Key, Seq<char>> {
    entries_map(mcp_entries(spans))
}

/// The MCP link entries of the spans.
pub fn mcp_links(spans: &Vec<RawSpan>) -> (r: Vec<PairEntry>)
    ensures
        pair_entries_view(r@) == mcp_entries(spans_view(spans@)),
{
    let mut out: Vec<PairEntry> = Vec::new();
    let mut i: usize = 0;
    while i < spans.len()
        invariant
            i <= spans@.len(),
            pair_entries_view(out@) == mcp_entries(spans_view(spans@.take(i as int))),
        decreases spans@.len() - i,
    {
        let span = &spans[i];
        assert(spans_view(spans@.take(i + 1)).drop_last() =~= spans_view(spans@.take(i as int)));
        assert(spans_view(spans@.take(i + 1)).last() == span@);
        if text_eq(span.name.as_str(), "mcp.tools.call") {
            let session_id = input_string(span, "conversation.id");
            let call_id = input_string(span, "tool.call_id");
            let turn_id = input_string(span, "turn.id");
            match (session_id, call_id, turn_id) {
                (Some(session_id), Some(call_id), Some(turn_id)) => {
                    out.push(((session_id, call_id), turn_id));
                },
                _ => {},
            }
        }
        assert(pair_entries_view(out@) =~= mcp_entries(spans_view(spans@.take(i + 1))));
        i = i + 1;
    }
    assert(spans@.take(i as int) =~= spans@);
    out
}

// ---------------------------------------------------------------------------
// Ancestors
// ---------------------------------------------------------------------------

/// What remains of the walk: parent ids not yet visited, and one more while
/// the walk stands on an id that is no span's parent.
pub open spec fn walk_measure(parents: Map<Key, Seq<char>>, id: Seq<char>, visited: Set<Seq<char>>) -> nat {
    parents.values().difference(visited).len() + if parents.values().contains(id) {
        0nat
    } else {
        1nat
    }
}

pub proof fn lemma_walk_step(
    parents: Map<Key, Seq<char>>,
    trace: Seq<char>,
    id: Seq<char>,
    visited: Set<Seq<char>>,
)
    requires
        parents.dom().finite(),
        !visited.contains(id),
        parents.dom().contains((trace, id)),
    ensures
        walk_measure(parents, parents[(trace, id)], visited.insert(id)) < walk_measure(parents, id, visited),
{
    let values = parents.values();
    let p = parents[(trace, id)];
    vstd::map_lib::lemma_values_finite(parents);
    assert(values.contains(p));
    let d = values.difference(visited);
    let d2 = values.difference(visited.insert(id));
    assert(d.finite()) by {
        assert(d.subset_of(values));
        vstd::set_lib::lemma_len_subset(d, values);
    }
    if values.contains(id) {
        assert(d2 =~= d.remove(id));
        assert(d.contains(id));
    } else {
        assert(d2 =~= d);
    }
}

/// The walk from span `id` up its parents within `trace`: the turn of the first
/// `turn/start` span reached, or `None` where the walk comes back to a span it
/// visited or reaches a span without a parent.
pub open spec fn ancestor_walk(
    parents: Map<Key, Seq<char>>,
    starts: Map<Key, Seq<char>>,
    trace: Seq<char>,
    id: Seq<char>,
    visited: Set<Seq<char>>,
) -> Option<Seq<char>>
    decreases walk_measure(parents, id, visited),
    when parents.dom().finite()
{
    if visited.contains(id) {
        None
    } else if starts.dom().contains((trace, id)) {
        Some(starts[(trace, id)])
    } else if parents.dom().contains((trace, id)) {
        proof {
            lemma_walk_step(parents, trace, id, visited);
        }
        ancestor_walk(parents, starts, trace, parents[(trace, id)], visited.insert(id))
    } else {
        None
    }
}

/// The turn that a span belongs to by its ancestors: that of the nearest
/// `turn/start` span among the span itself and its ancestors.
pub open spec fn spec_ancestor_turn(spans: Seq<RawSpanView>, span: RawSpanView) -> Option<Seq<char>> {
    ancestor_walk(spec_parents(spans), spec_starts(spans), span.trace_id, span.span_id, Set::empty())
}

/// The turn of the nearest `turn/start` span among the span and its ancestors.
pub fn ancestor_turn_id(span: &RawSpan, parents: &Vec<PairEntry>, start_turn_ids: &Vec<PairEntry>) -> (r: Option<String>)
    ensures
        opt_text(r) == ancestor_walk(
            pair_map(parents@),
            pair_map(start_turn_ids@),
            span.trace_id@,
            span.span_id@,
            Set::empty(),
        ),
{
    let ghost pm = pair_map(parents@);
    let ghost sm = pair_map(start_turn_ids@);
    proof {
        lemma_entries_map_finite(pair_entries_view(parents@));
    }
    let mut span_id = span.span_id.clone();
    let mut visited: Vec<String> = Vec::new();
    assert(strings_view(visited@).to_set() =~= Set::<Seq<char>>::empty());
    loop
        invariant
            pm == pair_map(parents@),
            sm == pair_map(start_turn_ids@),
            pm.dom().finite(),
            ancestor_walk(pm, sm, span.trace_id@, span_id@, strings_view(visited@).to_set())
                == ancestor_walk(pm, sm, span.trace_id@, span.span_id@, Set::empty()),
        decreases walk_measure(pm, span_id@, strings_view(visited@).to_set()),
    {
        let ghost vis = strings_view(visited@).to_set();
        if contains_text(&visited, span_id.as_str()) {
            proof {
                let j = choose|j: int| 0 <= j < visited@.len() && (#[trigger] visited@[j])@ == span_id@;
                assert(strings_view(visited@)[j] == span_id@);
                assert(strings_view(visited@).contains(span_id@));
            }
            return None;
        }
        proof {
            if strings_view(visited@).contains(span_id@) {
                let j = choose|j: int| 0 <= j < strings_view(visited@).len() && strings_view(visited@)[j] == span_id@;
                assert(visited@[j]@ == span_id@);
            }
        }
        let ghost old_id = span_id@;
        let ghost before = visited@;
        visited.push(span_id.clone());
        proof {
            assert(strings_view(visited@) =~= strings_view(before).push(old_id));
            strings_view(before).lemma_push_to_set_commute(old_id);
            assert(strings_view(before).to_set() == vis);
        }
        let start = pair_lookup(start_turn_ids, span.trace_id.as_str(), span_id.as_str());
        if let Some(turn_id) = start {
            return Some(turn_id.clone());
        }
        let parent = pair_lookup(parents, span.trace_id.as_str(), span_id.as_str());
        match parent {
            Some(parent) => {
                proof {
                    assert(!vis.contains(old_id));
                    assert(!sm.dom().contains((span.trace_id@, old_id)));
                    assert(pm.dom().contains((span.trace_id@, old_id)));
                    assert(pm[(span.trace_id@, old_id)] == parent@);
                    assert(ancestor_walk(pm, sm, span.trace_id@, old_id, vis) == ancestor_walk(
                        pm,
                        sm,
                        span.trace_id@,
                        parent@,
                        vis.insert(old_id),
                    ));
                    assert(strings_view(visited@).to_set() == vis.insert(old_id));
                    lemma_walk_step(pm, span.trace_id@, old_id, vis);
                }
                span_id = parent.clone();
            },
            None => {
                return None;
            },
        }
    }
}

} // verus!
