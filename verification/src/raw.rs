//! Spans and events as the compiler reads them: identifiers in hex, times as
//! `i64` nanoseconds, attributes as maps of JSON-shaped values.
use vstd::prelude::*;

use crate::otlp::{OtlpAnyValue, OtlpEvent, OtlpRequest, OtlpKeyValue, OtlpResourceSpans, OtlpScopeSpans, OtlpSpan};
use crate::value::{fields_view, opt_json, AttrValue, JsonView};

verus! {

pub struct RawEvent {
    pub name: String,
    pub timestamp: i64,
    pub attributes: Vec<(String, AttrValue)>,
}

pub struct RawSpan {
    pub trace_id: String,
    pub span_id: String,
    pub parent_span_id: String,
    pub name: String,
    pub started_at: i64,
    pub ended_at: i64,
    pub attributes: Vec<(String, AttrValue)>,
    pub events: Vec<RawEvent>,
}

pub struct RawEventView {
    pub name: Seq<char>,
    pub timestamp: i64,
    pub attributes: Map<Seq<char>, JsonView>,
}

pub struct RawSpanView {
    pub trace_id: Seq<char>,
    pub span_id: Seq<char>,
    pub parent_span_id: Seq<char>,
    pub name: Seq<char>,
    pub started_at: i64,
    pub ended_at: i64,
    pub attributes: Map<Seq<char>, JsonView>,
    pub events: Seq<RawEventView>,
}

impl View for RawEvent {
    type V = RawEventView;

    open spec fn view(&self) -> RawEventView {
        RawEventView {
            name: self.name@,
            timestamp: self.timestamp,
            attributes: fields_view(self.attributes@),
        }
    }
}

impl View for RawSpan {
    type V = RawSpanView;

    open spec fn view(&self) -> RawSpanView {
        RawSpanView {
            trace_id: self.trace_id@,
            span_id: self.span_id@,
            parent_span_id: self.parent_span_id@,
            name: self.name@,
            started_at: self.started_at,
            ended_at: self.ended_at,
            attributes: fields_view(self.attributes@),
            events: self.events@.map_values(|e: RawEvent| e@),
        }
    }
}

pub open spec fn spans_view(spans: Seq<RawSpan>) -> Seq<RawSpanView> {
    spans.map_values(|s: RawSpan| s@)
}

// ---------------------------------------------------------------------------
// Identifiers and times
// ---------------------------------------------------------------------------

pub open spec fn hex_digit(n: nat) -> char {
    if n == 0 { '0' }
    else if n == 1 { '1' }
    else if n == 2 { '2' }
    else if n == 3 { '3' }
    else if n == 4 { '4' }
    else if n == 5 { '5' }
    else if n == 6 { '6' }
    else if n == 7 { '7' }
    else if n == 8 { '8' }
    else if n == 9 { '9' }
    else if n == 10 { 'a' }
    else if n == 11 { 'b' }
    else if n == 12 { 'c' }
    else if n == 13 { 'd' }
    else if n == 14 { 'e' }
    else { 'f' }
}

/// Lower-case hex, two digits per byte, high nibble first.
pub open spec fn hex_text(bytes: Seq<u8>) -> Seq<char>
    decreases bytes.len(),
{
    if bytes.len() == 0 {
        Seq::empty()
    } else {
        hex_text(bytes.drop_last()) + seq![
            hex_digit((bytes.last() / 16) as nat),
            hex_digit((bytes.last() % 16) as nat),
        ]
    }
}

fn nibble_str(n: u8) -> (r: &'static str)
    requires
        n < 16,
    ensures
        r@ == seq![hex_digit(n as nat)],
{
    proof {
        reveal_strlit("0");
        reveal_strlit("1");
        reveal_strlit("2");
        reveal_strlit("3");
        reveal_strlit("4");
        reveal_strlit("5");
        reveal_strlit("6");
        reveal_strlit("7");
        reveal_strlit("8");
        reveal_strlit("9");
        reveal_strlit("a");
        reveal_strlit("b");
        reveal_strlit("c");
        reveal_strlit("d");
        reveal_strlit("e");
        reveal_strlit("f");
    }
    if n == 0 { "0" }
    else if n == 1 { "1" }
    else if n == 2 { "2" }
    else if n == 3 { "3" }
    else if n == 4 { "4" }
    else if n == 5 { "5" }
    else if n == 6 { "6" }
    else if n == 7 { "7" }
    else if n == 8 { "8" }
    else if n == 9 { "9" }
    else if n == 10 { "a" }
    else if n == 11 { "b" }
    else if n == 12 { "c" }
    else if n == 13 { "d" }
    else if n == 14 { "e" }
    else { "f" }
}

/// The bytes in lower-case hex.
pub fn hex(bytes: &[u8]) -> (r: String)
    ensures
        r@ == hex_text(bytes@),
        r@.len() == 2 * bytes@.len(),
{
    let mut output = String::new();
    let mut i: usize = 0;
    while i < bytes.len()
        invariant
            i <= bytes@.len(),
            output@ == hex_text(bytes@.take(i as int)),
            output@.len() == 2 * i,
        decreases bytes@.len() - i,
    {
        let byte = bytes[i];
        let high = byte >> 4;
        let low = byte & 0x0f;
        assert(high == byte / 16 && low == byte % 16) by (bit_vector)
            requires
                high == byte >> 4,
                low == byte & 0x0f,
        ;
        output.append(nibble_str(high));
        output.append(nibble_str(low));
        assert(bytes@.take(i + 1).drop_last() =~= bytes@.take(i as int));
        assert(bytes@.take(i + 1).last() == byte);
        assert(output@ =~= hex_text(bytes@.take(i + 1)));
        i = i + 1;
    }
    assert(bytes@.take(i as int) =~= bytes@);
    output
}

pub open spec fn spec_nanos_to_i64(value: u64) -> i64 {
    if value <= i64::MAX {
        value as i64
    } else {
        i64::MAX
    }
}

/// A time in nanoseconds as an `i64`; a time past `i64::MAX` becomes `i64::MAX`.
pub fn nanos_to_i64(value: u64) -> (r: i64)
    ensures
        r == spec_nanos_to_i64(value),
{
    if value <= 9223372036854775807u64 {
        value as i64
    } else {
        9223372036854775807i64
    }
}

// ---------------------------------------------------------------------------
// Attribute values
// ---------------------------------------------------------------------------

/// The JSON value of an OTLP value: bytes have none, nor a double that is not
/// finite; arrays keep the elements that have one, key-value lists become objects.
pub open spec fn spec_any_value(v: &OtlpAnyValue) -> Option<JsonView>
    decreases v,
{
    match v {
        OtlpAnyValue::StringValue(s) => Some(JsonView::Str(s@)),
        OtlpAnyValue::BoolValue(b) => Some(JsonView::Bool(*b)),
        OtlpAnyValue::IntValue(i) => Some(JsonView::Int(*i)),
        OtlpAnyValue::DoubleValue(t) => match t {
            Some(t) => Some(JsonView::Float(t@)),
            None => None,
        },
        OtlpAnyValue::BytesValue(_) => None,
        OtlpAnyValue::ArrayValue(values) => Some(JsonView::Array(spec_array_values(values@))),
        OtlpAnyValue::KvlistValue(values) => Some(JsonView::Object(spec_attributes(values@))),
    }
}

/// The JSON values of the elements that have one, in order.
pub open spec fn spec_array_values(values: Seq<Option<OtlpAnyValue>>) -> Seq<JsonView>
    decreases values,
{
    if values.len() == 0 {
        Seq::empty()
    } else {
        let rest = spec_array_values(values.drop_last());
        match values.last() {
            Some(x) => match spec_any_value(&x) {
                Some(j) => rest.push(j),
                None => rest,
            },
            None => rest,
        }
    }
}

/// The attribute map of a list of key-values: each key with a JSON value sets
/// it, a later one overriding an earlier one; keys without a value are skipped.
pub open spec fn spec_attributes(values: Seq<OtlpKeyValue>) -> Map<Seq<char>, JsonView>
    decreases values,
{
    if values.len() == 0 {
        Map::empty()
    } else {
        let rest = spec_attributes(values.drop_last());
        match values.last().value {
            Some(x) => match spec_any_value(&x) {
                Some(j) => rest.insert(values.last().key@, j),
                None => rest,
            },
            None => rest,
        }
    }
}

/// Converts an OTLP value to its JSON value.
pub fn any_value_to_json(value: &OtlpAnyValue) -> (r: Option<AttrValue>)
    ensures
        opt_json(r) == spec_any_value(value),
    decreases value,
{
    match value {
        OtlpAnyValue::StringValue(s) => Some(AttrValue::Str(s.clone())),
        OtlpAnyValue::BoolValue(b) => Some(AttrValue::Bool(*b)),
        OtlpAnyValue::IntValue(i) => Some(AttrValue::Int(*i)),
        OtlpAnyValue::DoubleValue(t) => match t {
            Some(t) => Some(AttrValue::Float(t.clone())),
            None => None,
        },
        OtlpAnyValue::BytesValue(_) => None,
        OtlpAnyValue::ArrayValue(values) => {
            let mut out: Vec<AttrValue> = Vec::new();
            let mut i: usize = 0;
            while i < values.len()
                invariant
                    i <= values@.len(),
                    value is ArrayValue,
                    value->ArrayValue_0 == *values,
                    Seq::new(out@.len(), |k: int| out@[k]@) == spec_array_values(values@.take(i as int)),
                decreases values@.len() - i,
            {
                assert(values@.take(i + 1).drop_last() =~= values@.take(i as int));
                assert(values@.take(i + 1).last() == values@[i as int]);
                let ghost before = out@;
                match &values[i] {
                    Some(x) => {
                        proof {
                            assert(decreases_to!(*value => value->ArrayValue_0));
                            assert(decreases_to!(*values => values@));
                            assert(decreases_to!(values@ => values@[i as int]));
                            assert(decreases_to!(values@[i as int] => values@[i as int]->Some_0));
                        }
                        match any_value_to_json(x) {
                            Some(j) => {
                                out.push(j);
                                assert(Seq::new(out@.len(), |k: int| out@[k]@) =~= Seq::new(
                                    before.len(),
                                    |k: int| before[k]@,
                                ).push(j@));
                            },
                            None => {},
                        }
                    },
                    None => {},
                }
                i = i + 1;
            }
            assert(values@.take(values@.len() as int) =~= values@);
            let r = AttrValue::Array(out);
            assert(opt_json(Some(r)) == spec_any_value(value)) by {
                if let JsonView::Array(x) = r@ {
                    assert(x =~= Seq::new(out@.len(), |k: int| out@[k]@));
                }
            }
            Some(r)
        },
        OtlpAnyValue::KvlistValue(values) => {
            proof {
                assert(decreases_to!(*value => value->KvlistValue_0));
            }
            Some(AttrValue::Object(attributes(values)))
        },
    }
}

/// The attribute entries of a list of key-values, in order, keeping those that
/// have a JSON value.
pub fn attributes(values: &Vec<OtlpKeyValue>) -> (r: Vec<(String, AttrValue)>)
    ensures
        fields_view(r@) == spec_attributes(values@),
    decreases values,
{
    let mut out: Vec<(String, AttrValue)> = Vec::new();
    let mut i: usize = 0;
    while i < values.len()
        invariant
            i <= values@.len(),
            fields_view(out@) == spec_attributes(values@.take(i as int)),
        decreases values@.len() - i,
    {
        assert(values@.take(i + 1).drop_last() =~= values@.take(i as int));
        assert(values@.take(i + 1).last() == values@[i as int]);
        let attribute = &values[i];
        match &attribute.value {
            Some(x) => {
                proof {
                    assert(decreases_to!(*values => values@));
                    assert(decreases_to!(values@ => values@[i as int]));
                    assert(decreases_to!(values@[i as int] => values@[i as int].value));
                    assert(decreases_to!(values@[i as int].value => values@[i as int].value->Some_0));
                }
                match any_value_to_json(x) {
                    Some(j) => {
                        let ghost before = out@;
                        out.push((attribute.key.clone(), j));
                        assert(out@.drop_last() == before);
                    },
                    None => {},
                }
            },
            None => {},
        }
        i = i + 1;
    }
    assert(values@.take(values@.len() as int) =~= values@);
    out
}

// ---------------------------------------------------------------------------
// Spans
// ---------------------------------------------------------------------------

pub open spec fn spec_raw_event(e: OtlpEvent) -> RawEventView {
    RawEventView {
        name: e.name@,
        timestamp: spec_nanos_to_i64(e.time_unix_nano),
        attributes: spec_attributes(e.attributes@),
    }
}

pub open spec fn spec_raw_span(s: OtlpSpan) -> RawSpanView {
    RawSpanView {
        trace_id: hex_text(s.trace_id@),
        span_id: hex_text(s.span_id@),
        parent_span_id: hex_text(s.parent_span_id@),
        name: s.name@,
        started_at: spec_nanos_to_i64(s.start_time_unix_nano),
        ended_at: spec_nanos_to_i64(s.end_time_unix_nano),
        attributes: spec_attributes(s.attributes@),
        events: s.events@.map_values(|e: OtlpEvent| spec_raw_event(e)),
    }
}

/// A span as the compiler reads it.
pub fn raw_span(span: &OtlpSpan) -> (r: RawSpan)
    ensures
        r@ == spec_raw_span(*span),
{
    let mut events: Vec<RawEvent> = Vec::new();
    let mut i: usize = 0;
    while i < span.events.len()
        invariant
            i <= span.events@.len(),
            events@.len() == i,
            forall|k: int| 0 <= k < i ==> (#[trigger] events@[k])@ == spec_raw_event(span.events@[k]),
        decreases span.events@.len() - i,
    {
        let event = &span.events[i];
        events.push(RawEvent {
            name: event.name.clone(),
            timestamp: nanos_to_i64(event.time_unix_nano),
            attributes: attributes(&event.attributes),
        });
        i = i + 1;
    }
    let r = RawSpan {
        trace_id: hex(span.trace_id.as_slice()),
        span_id: hex(span.span_id.as_slice()),
        parent_span_id: hex(span.parent_span_id.as_slice()),
        name: span.name.clone(),
        started_at: nanos_to_i64(span.start_time_unix_nano),
        ended_at: nanos_to_i64(span.end_time_unix_nano),
        attributes: attributes(&span.attributes),
        events,
    };
    assert(r@.events =~= spec_raw_span(*span).events);
    r
}

/// The spans of a list of scopes, scope by scope.
pub open spec fn scope_list_spans(scopes: Seq<OtlpScopeSpans>) -> Seq<OtlpSpan>
    decreases scopes.len(),
{
    if scopes.len() == 0 {
        Seq::empty()
    } else {
        scope_list_spans(scopes.drop_last()) + scopes.last().spans@
    }
}

/// The spans of a list of resources, resource by resource.
pub open spec fn resource_list_spans(resources: Seq<OtlpResourceSpans>) -> Seq<OtlpSpan>
    decreases resources.len(),
{
    if resources.len() == 0 {
        Seq::empty()
    } else {
        resource_list_spans(resources.drop_last()) + scope_list_spans(resources.last().scope_spans@)
    }
}

/// The spans of a request, as the compiler reads them, in the order of the request.
pub open spec fn spec_raw_spans(request: OtlpRequest) -> Seq<RawSpanView> {
    resource_list_spans(request.resource_spans@).map_values(|s: OtlpSpan| spec_raw_span(s))
}

/// Every span of the request, as the compiler reads it, in order.
pub fn raw_spans(request: &OtlpRequest) -> (r: Vec<RawSpan>)
    ensures
        spans_view(r@) == spec_raw_spans(*request),
{
    let mut out: Vec<RawSpan> = Vec::new();
    let ghost mut done: Seq<OtlpSpan> = Seq::empty();
    let mut i: usize = 0;
    while i < request.resource_spans.len()
        invariant
            i <= request.resource_spans@.len(),
            done == resource_list_spans(request.resource_spans@.take(i as int)),
            out@.len() == done.len(),
            forall|k: int| 0 <= k < done.len() ==> (#[trigger] out@[k])@ == spec_raw_span(done[k]),
        decreases request.resource_spans@.len() - i,
    {
        let resource = &request.resource_spans[i];
        let ghost before_resource = done;
        let mut j: usize = 0;
        while j < resource.scope_spans.len()
            invariant
                j <= resource.scope_spans@.len(),
                done == before_resource + scope_list_spans(resource.scope_spans@.take(j as int)),
                out@.len() == done.len(),
                forall|k: int| 0 <= k < done.len() ==> (#[trigger] out@[k])@ == spec_raw_span(done[k]),
            decreases resource.scope_spans@.len() - j,
        {
            let scope = &resource.scope_spans[j];
            let ghost before_scope = done;
            let mut k: usize = 0;
            while k < scope.spans.len()
                invariant
                    k <= scope.spans@.len(),
                    done == before_scope + scope.spans@.take(k as int),
                    out@.len() == done.len(),
                    forall|m: int| 0 <= m < done.len() ==> (#[trigger] out@[m])@ == spec_raw_span(done[m]),
                decreases scope.spans@.len() - k,
            {
                out.push(raw_span(&scope.spans[k]));
                proof {
                    assert(scope.spans@.take(k + 1) =~= scope.spans@.take(k as int).push(scope.spans@[k as int]));
                    done = done.push(scope.spans@[k as int]);
                }
                k = k + 1;
            }
            proof {
                assert(scope.spans@.take(k as int) =~= scope.spans@);
                assert(resource.scope_spans@.take(j + 1).drop_last() =~= resource.scope_spans@.take(j as int));
                assert(done =~= before_resource + scope_list_spans(resource.scope_spans@.take(j + 1)));
            }
            j = j + 1;
        }
        proof {
            assert(resource.scope_spans@.take(j as int) =~= resource.scope_spans@);
            assert(request.resource_spans@.take(i + 1).drop_last() =~= request.resource_spans@.take(i as int));
            assert(done =~= resource_list_spans(request.resource_spans@.take(i + 1)));
        }
        i = i + 1;
    }
    assert(request.resource_spans@.take(i as int) =~= request.resource_spans@);
    assert(spans_view(out@) =~= spec_raw_spans(*request));
    out
}

} // verus!
