//! The protobuf body of an OTLP/HTTP trace export, decoded with prost into
//! opentelemetry-proto's messages and converted to the library's plain values.
use vstd::prelude::*;

use opentelemetry_proto::tonic::collector::trace::v1::ExportTraceServiceRequest;
use opentelemetry_proto::tonic::common::v1::{any_value, AnyValue, KeyValue};
use opentelemetry_proto::tonic::trace::v1::{span::Event, Span};
use prost::Message;

use crate::otlp::{OtlpAnyValue, OtlpEvent, OtlpKeyValue, OtlpRequest, OtlpResourceSpans, OtlpScopeSpans, OtlpSpan};

verus! {

#[verifier::external_type_specification]
#[verifier::external_body]
pub struct ExProtoRequest(ExportTraceServiceRequest);

#[verifier::external_type_specification]
#[verifier::external_body]
pub struct ExProtoSpan(Span);

#[verifier::external_type_specification]
#[verifier::external_body]
pub struct ExProtoEvent(Event);

#[verifier::external_type_specification]
#[verifier::external_body]
pub struct ExProtoKeyValue(KeyValue);

#[verifier::external_type_specification]
#[verifier::external_body]
pub struct ExProtoAnyValue(AnyValue);

/// The request that prost decodes from `body` as opentelemetry-proto's
/// `ExportTraceServiceRequest`, converted to the library's plain values; `Err`
/// holds the text of the decode error.
pub uninterp spec fn decoded_request(body: Seq<u8>) -> Result<OtlpRequest, Seq<char>>;

/// Decodes `body` with `prost::Message::decode` as opentelemetry-proto's
/// `ExportTraceServiceRequest` and converts it field for field. Claimed: the
/// result is `decoded_request` of the body; nothing is claimed of which bodies
/// decode, nor of what they decode to.
#[verifier::external_body]
pub fn decode_request(body: &[u8]) -> (r: Result<OtlpRequest, String>)
    ensures
        match r {
            Ok(q) => decoded_request(body@) == Ok::<OtlpRequest, Seq<char>>(q),
            Err(e) => decoded_request(body@) == Err::<OtlpRequest, Seq<char>>(e@),
        },
{
    match ExportTraceServiceRequest::decode(body) {
        Ok(request) => Ok(request_from_proto(request)),
        Err(error) => Err(error.to_string()),
    }
}

/// Converts a decoded request: resources, scopes and spans, in order.
#[verifier::external_body]
fn request_from_proto(request: ExportTraceServiceRequest) -> OtlpRequest {
    OtlpRequest {
        resource_spans: request.resource_spans.into_iter().map(|resource| OtlpResourceSpans {
            scope_spans: resource.scope_spans.into_iter().map(|scope| OtlpScopeSpans {
                spans: scope.spans.into_iter().map(span_from_proto).collect(),
            }).collect(),
        }).collect(),
    }
}

/// Converts a span field for field, leaving out the fields that are not read.
#[verifier::external_body]
fn span_from_proto(span: Span) -> OtlpSpan {
    OtlpSpan {
        trace_id: span.trace_id,
        span_id: span.span_id,
        parent_span_id: span.parent_span_id,
        name: span.name,
        start_time_unix_nano: span.start_time_unix_nano,
        end_time_unix_nano: span.end_time_unix_nano,
        attributes: key_values_from_proto(span.attributes),
        events: span.events.into_iter().map(event_from_proto).collect(),
    }
}

/// Converts an event field for field, leaving out the fields that are not read.
#[verifier::external_body]
fn event_from_proto(event: Event) -> OtlpEvent {
    OtlpEvent {
        time_unix_nano: event.time_unix_nano,
        name: event.name,
        attributes: key_values_from_proto(event.attributes),
    }
}

/// Converts attributes entry for entry.
#[verifier::external_body]
fn key_values_from_proto(values: Vec<KeyValue>) -> Vec<OtlpKeyValue> {
    values.into_iter().map(|kv| OtlpKeyValue { key: kv.key, value: kv.value.and_then(any_value_from_proto) }).collect()
}

/// Converts a value variant for variant. A double becomes the text that
/// `serde_json::Number::from_f64` writes for it (`None` where it gives no
/// number); a value that names a string by a dictionary index, or no value,
/// becomes `None`.
#[verifier::external_body]
fn any_value_from_proto(value: AnyValue) -> Option<OtlpAnyValue> {
    Some(match value.value? {
        any_value::Value::StringValue(v) => OtlpAnyValue::StringValue(v),
        any_value::Value::BoolValue(v) => OtlpAnyValue::BoolValue(v),
        any_value::Value::IntValue(v) => OtlpAnyValue::IntValue(v),
        any_value::Value::DoubleValue(v) => OtlpAnyValue::DoubleValue(serde_json::Number::from_f64(v).map(|n| n.to_string())),
        any_value::Value::BytesValue(v) => OtlpAnyValue::BytesValue(v),
        any_value::Value::ArrayValue(v) => OtlpAnyValue::ArrayValue(v.values.into_iter().map(any_value_from_proto).collect()),
        any_value::Value::KvlistValue(v) => OtlpAnyValue::KvlistValue(key_values_from_proto(v.values)),
        any_value::Value::StringValueStrindex(_) => return None,
    })
}

} // verus!
