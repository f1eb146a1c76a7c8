//! Spans and events that no rule classifies are not kept: only their name, kind,
//! count and first and last timestamps, per `(kind, name)`.
use vstd::prelude::*;

use crate::entries::{
    entries_map, keys_unique, lemma_entries_map_absent, lemma_entries_map_contains,
    lemma_entries_map_contains_at, lemma_entries_map_update,
    lemma_keys_unique_push,
};
use crate::model::{telemetry_kind_name, unknown_view, TelemetryKind, UnknownTelemetry, UnknownView};
use crate::order::{compare_keys, key_lt, lemma_insert_strictly_sorted, lemma_key_total, strictly_sorted, Key};
use crate::text::text_eq;

verus! {

/// The span names that the compiler classifies: those it reads, and the
/// internal ones it discards on purpose.
pub open spec fn spec_known_span(name: Seq<char>) -> bool {
    ||| name == "session_task.turn"@
    ||| name == "run_sampling_request"@
    ||| name == "try_run_sampling_request"@
    ||| name == "op.dispatch.turn_input"@
    ||| name == "turn/start"@
    ||| name == "dispatch_tool_call_with_terminal_outcome"@
    ||| name == "mcp.tools.call"@
    ||| name == "handle_responses"@
    ||| name == "append_items"@
    ||| name == "persist_rollout_items"@
    ||| name == "realtime_conversation.running_state"@
    ||| name == "auth"@
    ||| name == "responses_websocket.stream_request"@
    ||| name == "endpoint_session.execute_with"@
    ||| name == "startup_prewarm.resolve"@
    ||| name == "thread/start"@
}

/// Whether the compiler classifies a span of this name.
pub fn known_span(name: &str) -> (r: bool)
    ensures
        r == spec_known_span(name@),
{
    text_eq(name, "session_task.turn") || text_eq(name, "run_sampling_request") || text_eq(
        name,
        "try_run_sampling_request",
    ) || text_eq(name, "op.dispatch.turn_input") || text_eq(name, "turn/start") || text_eq(
        name,
        "dispatch_tool_call_with_terminal_outcome",
    ) || text_eq(name, "mcp.tools.call") || text_eq(name, "handle_responses") || text_eq(
        name,
        "append_items",
    ) || text_eq(name, "persist_rollout_items") || text_eq(
        name,
        "realtime_conversation.running_state",
    ) || text_eq(name, "auth") || text_eq(name, "responses_websocket.stream_request") || text_eq(
        name,
        "endpoint_session.execute_with",
    ) || text_eq(name, "startup_prewarm.resolve") || text_eq(name, "thread/start")
}

/// The event names that the compiler discards on purpose.
pub open spec fn spec_discarded_event(name: Seq<char>) -> bool {
    ||| name == "codex.api_request"@
    ||| name == "codex.startup_phase"@
    ||| name == "codex.websocket_request"@
}

/// Whether the compiler discards events of this name on purpose.
pub fn discarded_event(name: &str) -> (r: bool)
    ensures
        r == spec_discarded_event(name@),
{
    text_eq(name, "codex.api_request") || text_eq(name, "codex.startup_phase") || text_eq(
        name,
        "codex.websocket_request",
    )
}

pub type UnknownKey = (TelemetryKind, Seq<char>);

pub open spec fn min_i64(a: i64, b: i64) -> i64 {
    if a <= b { a } else { b }
}

pub open spec fn max_i64(a: i64, b: i64) -> i64 {
    if a >= b { a } else { b }
}

/// One more sighting of `(kind, name)` at `timestamp`: counted, with the first
/// and last timestamps widened to cover it.
pub open spec fn record_step(
    m: Map<UnknownKey, UnknownView>,
    name: Seq<char>,
    kind: TelemetryKind,
    timestamp: i64,
) -> Map<UnknownKey, UnknownView> {
    let key = (kind, name);
    if m.dom().contains(key) {
        let e = m[key];
        m.insert(
            key,
            UnknownView {
                name: e.name,
                kind: e.kind,
                count: (e.count + 1) as i64,
                first_seen: min_i64(e.first_seen, timestamp),
                last_seen: max_i64(e.last_seen, timestamp),
            },
        )
    } else {
        m.insert(key, UnknownView { name, kind, count: 1, first_seen: timestamp, last_seen: timestamp })
    }
}

/// The order in which unknown telemetry is listed: by the kind's name, then by name.
pub open spec fn unknown_key(u: UnknownView) -> Key {
    (telemetry_kind_name(u.kind), u.name)
}

/// `list` holds the entries of `m`, one each, in ascending order of `unknown_key`.
pub open spec fn lists_unknown(list: Seq<UnknownView>, m: Map<UnknownKey, UnknownView>) -> bool {
    &&& forall|i: int, j: int| 0 <= i < j < list.len() ==> key_lt(unknown_key(#[trigger] list[i]), unknown_key(#[trigger] list[j]))
    &&& forall|i: int| 0 <= i < list.len() ==> m.dom().contains((#[trigger] list[i].kind, list[i].name)) && m[(list[i].kind, list[i].name)] == list[i]
    &&& forall|k: UnknownKey| #[trigger] m.dom().contains(k) ==> exists|i: int| 0 <= i < list.len() && (list[i].kind, list[i].name) == k
}

/// Unknown telemetry counted so far, one entry per `(kind, name)`.
pub struct UnknownAccumulator(Vec<UnknownTelemetry>);

pub open spec fn acc_entries(v: Seq<UnknownTelemetry>) -> Seq<(UnknownKey, UnknownView)> {
    v.map_values(|u: UnknownTelemetry| ((u.kind, u.name@), u@))
}

impl UnknownAccumulator {
    pub closed spec fn entries(&self) -> Seq<(UnknownKey, UnknownView)> {
        acc_entries(self.0@)
    }

    /// What has been counted, by `(kind, name)`.
    pub open spec fn counted(&self) -> Map<UnknownKey, UnknownView> {
        entries_map(self.entries())
    }

    pub open spec fn wf(&self) -> bool {
        keys_unique(self.entries())
    }

    pub fn new() -> (r: Self)
        ensures
            r.wf(),
            r.counted() == Map::<UnknownKey, UnknownView>::empty(),
    {
        let r = UnknownAccumulator(Vec::new());
        assert(r.entries() =~= Seq::<(UnknownKey, UnknownView)>::empty());
        assert(r.counted() =~= Map::<UnknownKey, UnknownView>::empty());
        r
    }

    /// Counts a sighting of `(kind, name)` at `timestamp`.
    pub fn record(&mut self, name: &str, kind: TelemetryKind, timestamp: i64)
        requires
            old(self).wf(),
            old(self).counted().dom().contains((kind, name@)) ==> old(self).counted()[(kind, name@)].count < i64::MAX,
        ensures
            final(self).wf(),
            final(self).counted() == record_step(old(self).counted(), name@, kind, timestamp),
    {
        let ghost before = self.entries();
        let mut i: usize = 0;
        while i < self.0.len()
            invariant
                i <= self.0@.len(),
                before == acc_entries(self.0@),
                before == old(self).entries(),
                keys_unique(before),
                entries_map(before).dom().contains((kind, name@)) ==> entries_map(before)[(kind, name@)].count < i64::MAX,
                forall|j: int| 0 <= j < i ==> (#[trigger] before[j]).0 != (kind, name@),
            decreases self.0@.len() - i,
        {
            assert(before[i as int].0 == (self.0@[i as int].kind, self.0@[i as int].name@));
            if self.0[i].kind == kind && text_eq(self.0[i].name.as_str(), name) {
                proof {
                    lemma_entries_map_contains_at(before, i as int);
                }
                let entry = &self.0[i];
                let first_seen = if entry.first_seen <= timestamp { entry.first_seen } else { timestamp };
                let last_seen = if entry.last_seen >= timestamp { entry.last_seen } else { timestamp };
                let updated = UnknownTelemetry {
                    name: entry.name.clone(),
                    kind: entry.kind,
                    count: entry.count + 1,
                    first_seen,
                    last_seen,
                };
                let ghost uv = updated@;
                assert(before[i as int].0 == (kind, name@));
                assert(before[i as int].1 == self.0@[i as int]@);
                assert(entries_map(before)[(kind, name@)] == self.0@[i as int]@);
                self.0.set(i, updated);
                proof {
                    assert(self.entries() =~= before.update(i as int, (before[i as int].0, uv)));
                    lemma_entries_map_update(before, i as int, uv);
                    assert(self.counted() == entries_map(before).insert((kind, name@), uv));
                    let e = entries_map(before)[(kind, name@)];
                    assert(uv.name == e.name);
                    assert(uv.kind == e.kind);
                    assert(uv.count == (e.count + 1) as i64);
                    assert(uv.first_seen == min_i64(e.first_seen, timestamp));
                    assert(uv.last_seen == max_i64(e.last_seen, timestamp));
                    assert(entries_map(before).dom().contains((kind, name@)));
                }
                return;
            }
            i = i + 1;
        }
        let fresh = UnknownTelemetry {
            name: String::from_str(name),
            kind,
            count: 1,
            first_seen: timestamp,
            last_seen: timestamp,
        };
        let ghost fv = fresh@;
        self.0.push(fresh);
        proof {
            assert(self.entries() =~= before.push(((kind, name@), fv)));
            assert(self.entries().drop_last() =~= before);
            lemma_keys_unique_push(before, ((kind, name@), fv));
            lemma_entries_map_absent(before, (kind, name@));
        }
    }

    /// The counted telemetry in ascending order of kind name, then name.
    pub fn finish(self) -> (r: Vec<UnknownTelemetry>)
        requires
            self.wf(),
        ensures
            lists_unknown(unknown_view(r@), self.counted()),
    {
        proof {
            reveal_strlit("Span");
            reveal_strlit("Event");
            assert("Span"@.len() == 4);
            assert("Event"@.len() == 5);
        }
        let ghost es = self.entries();
        let ghost m = self.counted();
        let values = self.0;
        let ghost vv = unknown_view(values@);
        let mut out: Vec<UnknownTelemetry> = Vec::new();
        let mut i: usize = 0;
        while i < values.len()
            invariant
                i <= values@.len(),
                vv == unknown_view(values@),
                es == acc_entries(values@),
                m == entries_map(es),
                keys_unique(es),
                "Span"@ != "Event"@,
                strictly_sorted(unknown_keys(unknown_view(out@))),
                listed_from(unknown_view(out@), vv, i as int),
            decreases values@.len() - i,
        {
            let item = &values[i];
            let ghost ov = unknown_view(out@);
            proof {
                lemma_new_key_unlisted(es, values@, ov, i as int);
            }
            let copy = UnknownTelemetry {
                name: item.name.clone(),
                kind: item.kind,
                count: item.count,
                first_seen: item.first_seen,
                last_seen: item.last_seen,
            };
            assert(copy@ == vv[i as int]);
            let p = insert_sorted(&mut out, copy);
            proof {
                lemma_insert_keeps_listing(ov, p as int, vv, i as int);
            }
            i = i + 1;
        }
        proof {
            lemma_listing_complete(es, values@, unknown_view(out@));
        }
        out
    }
}

/// Inserts `item` among the listed telemetry, after every key below its own.
fn insert_sorted(out: &mut Vec<UnknownTelemetry>, item: UnknownTelemetry) -> (p: usize)
    requires
        strictly_sorted(unknown_keys(unknown_view(old(out)@))),
        forall|a: int| 0 <= a < old(out)@.len() ==> #[trigger] unknown_keys(unknown_view(old(out)@))[a] != unknown_key(item@),
    ensures
        p <= old(out)@.len(),
        unknown_view(final(out)@) == unknown_view(old(out)@).insert(p as int, item@),
        strictly_sorted(unknown_keys(unknown_view(final(out)@))),
{
    let ghost ov = unknown_view(out@);
    let ghost iv = item@;
    let mut p: usize = 0;
    while p < out.len() && compare_keys(out[p].kind.as_str(), out[p].name.as_str(), item.kind.as_str(), item.name.as_str()) < 0
        invariant
            p <= out@.len(),
            iv == item@,
            ov == unknown_view(out@),
            forall|a: int| 0 <= a < p ==> key_lt(#[trigger] unknown_keys(ov)[a], unknown_key(iv)),
        decreases out@.len() - p,
    {
        assert(unknown_keys(ov)[p as int] == unknown_key(out@[p as int]@));
        p = p + 1;
    }
    proof {
        if p < out@.len() {
            assert(unknown_keys(ov)[p as int] == unknown_key(out@[p as int]@));
            lemma_key_total(unknown_keys(ov)[p as int], unknown_key(iv));
        }
        lemma_insert_strictly_sorted(unknown_keys(ov), p as int, unknown_key(iv));
    }
    out.insert(p, item);
    proof {
        assert(unknown_view(out@) =~= ov.insert(p as int, iv));
        assert(unknown_keys(unknown_view(out@)) =~= unknown_keys(ov).insert(p as int, unknown_key(iv)));
    }
    p
}

pub open spec fn unknown_keys(list: Seq<UnknownView>) -> Seq<Key> {
    list.map_values(|u: UnknownView| unknown_key(u))
}

/// Every item of `list` is one of the first `i` of `vals`, and each of those is in `list`.
pub open spec fn listed_from(list: Seq<UnknownView>, vals: Seq<UnknownView>, i: int) -> bool {
    &&& forall|a: int| 0 <= a < list.len() ==> exists|k: int| 0 <= k < i && #[trigger] list[a] == vals[k]
    &&& forall|k: int| 0 <= k < i ==> exists|a: int| 0 <= a < list.len() && list[a] == #[trigger] vals[k]
}

proof fn lemma_insert_keeps_listing(list: Seq<UnknownView>, p: int, vals: Seq<UnknownView>, i: int)
    requires
        listed_from(list, vals, i),
        0 <= p <= list.len(),
        0 <= i < vals.len(),
    ensures
        listed_from(list.insert(p, vals[i]), vals, i + 1),
{
    let r = list.insert(p, vals[i]);
    assert forall|a: int| 0 <= a < r.len() implies exists|k: int| 0 <= k < i + 1 && #[trigger] r[a] == vals[k] by {
        if a < p {
            assert(r[a] == list[a]);
        } else if a == p {
            assert(r[a] == vals[i]);
        } else {
            assert(r[a] == list[a - 1]);
        }
    }
    assert forall|k: int| 0 <= k < i + 1 implies exists|a: int| 0 <= a < r.len() && r[a] == #[trigger] vals[k] by {
        if k == i {
            assert(r[p] == vals[k]);
        } else {
            let a = choose|a: int| 0 <= a < list.len() && list[a] == #[trigger] vals[k];
            if a < p {
                assert(r[a] == list[a]);
            } else {
                assert(r[a + 1] == list[a]);
            }
        }
    }
}

/// The kind's name tells the kinds apart.
proof fn lemma_kind_name_injective(a: TelemetryKind, b: TelemetryKind)
    requires
        "Span"@ != "Event"@,
        telemetry_kind_name(a) == telemetry_kind_name(b),
    ensures
        a == b,
{
}

/// The key of item `i` is not the key of anything listed from the items before it.
proof fn lemma_new_key_unlisted(es: Seq<(UnknownKey, UnknownView)>, values: Seq<UnknownTelemetry>, list: Seq<UnknownView>, i: int)
    requires
        es == acc_entries(values),
        keys_unique(es),
        "Span"@ != "Event"@,
        0 <= i < values.len(),
        listed_from(list, unknown_view(values), i),
    ensures
        forall|a: int| 0 <= a < list.len() ==> #[trigger] unknown_keys(list)[a] != unknown_key(values[i]@),
{
    let vv = unknown_view(values);
    assert forall|a: int| 0 <= a < list.len() implies #[trigger] unknown_keys(list)[a] != unknown_key(values[i]@) by {
        let k = choose|k: int| 0 <= k < i && #[trigger] list[a] == vv[k];
        assert(es[k].0 != es[i].0);
        assert(es[k].0 == (values[k].kind, values[k].name@));
        assert(es[i].0 == (values[i].kind, values[i].name@));
        assert(vv[k] == values[k]@);
        if unknown_keys(list)[a] == unknown_key(values[i]@) {
            lemma_kind_name_injective(values[k].kind, values[i].kind);
        }
    }
}

/// Once every item is listed, the list holds the counted map.
proof fn lemma_listing_complete(es: Seq<(UnknownKey, UnknownView)>, values: Seq<UnknownTelemetry>, list: Seq<UnknownView>)
    requires
        es == acc_entries(values),
        keys_unique(es),
        strictly_sorted(unknown_keys(list)),
        listed_from(list, unknown_view(values), values.len() as int),
    ensures
        lists_unknown(list, entries_map(es)),
{
    let m = entries_map(es);
    let vv = unknown_view(values);
    assert forall|a: int| 0 <= a < list.len() implies m.dom().contains((#[trigger] list[a].kind, list[a].name)) && m[(list[a].kind, list[a].name)] == list[a] by {
        let k = choose|k: int| 0 <= k < values.len() && #[trigger] list[a] == vv[k];
        assert(es[k] == ((values[k].kind, values[k].name@), values[k]@));
        lemma_entries_map_contains_at(es, k);
    }
    assert forall|key: UnknownKey| #[trigger] m.dom().contains(key) implies exists|a: int| 0 <= a < list.len() && (list[a].kind, list[a].name) == key by {
        lemma_entries_map_contains(es, key);
        let k = choose|k: int| 0 <= k < es.len() && (#[trigger] es[k]).0 == key && m[key] == es[k].1;
        assert(es[k] == ((values[k].kind, values[k].name@), values[k]@));
        assert(vv[k] == values[k]@);
        let a = choose|a: int| 0 <= a < list.len() && list[a] == #[trigger] vv[k];
    }
    assert forall|a: int, b: int| 0 <= a < b < list.len() implies key_lt(unknown_key(#[trigger] list[a]), unknown_key(#[trigger] list[b])) by {
        assert(unknown_keys(list)[a] == unknown_key(list[a]));
        assert(unknown_keys(list)[b] == unknown_key(list[b]));
    }
}

} // verus!
