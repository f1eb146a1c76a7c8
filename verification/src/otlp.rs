//! The parts of an OTLP trace export request that the compiler reads, as plain
//! values: resources hold scopes, scopes hold spans, spans hold attributes and
//! events. Field names follow the OTLP protobuf messages.
use vstd::prelude::*;

verus! {

#[derive(Debug, Default)]
pub struct OtlpRequest {
    pub resource_spans: Vec<OtlpResourceSpans>,
}

#[derive(Debug, Default)]
pub struct OtlpResourceSpans {
    pub scope_spans: Vec<OtlpScopeSpans>,
}

#[derive(Debug, Default)]
pub struct OtlpScopeSpans {
    pub spans: Vec<OtlpSpan>,
}

#[derive(Debug, Default)]
pub struct OtlpSpan {
    pub trace_id: Vec<u8>,
    pub span_id: Vec<u8>,
    pub parent_span_id: Vec<u8>,
    pub name: String,
    pub start_time_unix_nano: u64,
    pub end_time_unix_nano: u64,
    pub attributes: Vec<OtlpKeyValue>,
    pub events: Vec<OtlpEvent>,
}

#[derive(Debug, Default)]
pub struct OtlpEvent {
    pub time_unix_nano: u64,
    pub name: String,
    pub attributes: Vec<OtlpKeyValue>,
}

/// An attribute; `value` is `None` where the message carries no value.
#[derive(Debug)]
pub struct OtlpKeyValue {
    pub key: String,
    pub value: Option<OtlpAnyValue>,
}

/// The value of an attribute, one variant per kind that OTLP carries.
#[derive(Debug)]
pub enum OtlpAnyValue {
    StringValue(String),
    BoolValue(bool),
    IntValue(i64),
    /// A double, held as the JSON text of its value (`serde_json`'s rendering of
    /// a finite number); `None` for a NaN or an infinity, which JSON cannot hold.
    DoubleValue(Option<String>),
    BytesValue(Vec<u8>),
    /// The elements; `None` for an element that carries no value.
    ArrayValue(Vec<Option<OtlpAnyValue>>),
    KvlistValue(Vec<OtlpKeyValue>),
}

} // verus!
