use codex_activity_compiler::compile::{compile_body, BodyError};
use codex_activity_compiler::model::TelemetryKind;
use opentelemetry_proto::tonic::collector::trace::v1::ExportTraceServiceRequest;
use opentelemetry_proto::tonic::common::v1::{any_value, AnyValue, KeyValue, KeyValueList};
use opentelemetry_proto::tonic::trace::v1::{span::Event, ResourceSpans, ScopeSpans, Span};
use prost::Message;

fn value(v: any_value::Value) -> Option<AnyValue> {
    Some(AnyValue { value: Some(v) })
}

fn kv(key: &str, v: any_value::Value) -> KeyValue {
    KeyValue {
        key: key.into(),
        value: value(v),
        ..Default::default()
    }
}

fn text(s: &str) -> any_value::Value {
    any_value::Value::StringValue(s.into())
}

fn span(span_id: u8, parent: Option<u8>, name: &str, start: u64, attributes: Vec<KeyValue>, events: Vec<Event>) -> Span {
    Span {
        trace_id: vec![7; 16],
        span_id: vec![span_id],
        parent_span_id: parent.map(|p| vec![p]).unwrap_or_default(),
        name: name.into(),
        start_time_unix_nano: start,
        end_time_unix_nano: start + 10,
        attributes,
        events,
        ..Default::default()
    }
}

fn encoded(spans: Vec<Span>) -> Vec<u8> {
    let request = ExportTraceServiceRequest {
        resource_spans: vec![ResourceSpans {
            scope_spans: vec![ScopeSpans {
                spans,
                ..Default::default()
            }],
            ..Default::default()
        }],
    };
    let mut body = Vec::new();
    request.encode(&mut body).unwrap();
    body
}

#[test]
fn protobuf_body_decodes_and_compiles() {
    let body = encoded(vec![
        span(1, None, "turn/start", 100, vec![kv("turn.id", text("turn-1"))], vec![]),
        span(2, Some(1), "op.dispatch.turn_input", 110, vec![], vec![Event {
            time_unix_nano: 120,
            name: "event".into(),
            attributes: vec![
                kv("event.name", text("codex.user_prompt")),
                kv("conversation.id", text("session-1")),
                kv("prompt_length", any_value::Value::IntValue(42)),
            ],
            ..Default::default()
        }]),
        span(3, Some(1), "session_task.turn", 130, vec![kv(
            "input",
            any_value::Value::KvlistValue(KeyValueList {
                values: vec![
                    kv("turn.id", text("turn-1")),
                    kv("model", any_value::Value::DoubleValue(1.5)),
                    kv("codex.turn.reasoning_effort", any_value::Value::StringValueStrindex(3)),
                    kv("codex.turn.token_usage.total_tokens", any_value::Value::IntValue(9)),
                ],
            }),
        )], vec![]),
        span(4, None, "codex.future_span", 400, vec![], vec![]),
    ]);
    let compiled = compile_body(&body).unwrap();
    assert_eq!(compiled.sessions, vec!["session-1".to_owned()]);
    assert_eq!(compiled.turns.len(), 1);
    let turn = &compiled.turns[0];
    assert_eq!(turn.id, "turn-1");
    assert_eq!(turn.model.as_deref(), Some("1.5"));
    assert_eq!(turn.reasoning_effort, None);
    assert_eq!(turn.total_tokens, Some(9));
    assert_eq!(turn.prompt_length, Some(42));
    assert_eq!((turn.started_at, turn.ended_at), (130, 140));
    assert_eq!(compiled.unknown.len(), 1);
    assert_eq!(compiled.unknown[0].kind, TelemetryKind::Span);
    assert_eq!(compiled.unknown[0].name, "codex.future_span");
}

#[test]
fn empty_body_is_an_empty_request() {
    let compiled = compile_body(&[]).unwrap();
    assert!(compiled.sessions.is_empty());
    assert!(compiled.turns.is_empty());
    assert!(compiled.tool_calls.is_empty());
    assert!(compiled.unknown.is_empty());
}

#[test]
fn invalid_protobuf_body_is_a_decode_error() {
    let result = compile_body(&[0xff, 0xff, 0xff]);
    match result {
        Err(BodyError::Decode(message)) => assert!(!message.is_empty()),
        other => panic!("expected a decode error, got {other:?}"),
    }
}
