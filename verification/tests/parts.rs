use codex_activity_compiler::model::{TelemetryKind, ToolKind};
use codex_activity_compiler::otlp::{OtlpAnyValue, OtlpKeyValue};
use codex_activity_compiler::raw::{any_value_to_json, attributes, hex, nanos_to_i64, RawSpan};
use codex_activity_compiler::read::{input_i64, input_string};
use codex_activity_compiler::text::{compare_text, i64_to_decimal, parse_bool, parse_i64, u64_to_decimal};
use codex_activity_compiler::unknown::{discarded_event, known_span, UnknownAccumulator};
use codex_activity_compiler::value::{bool_attr, i64_attr, string_attr, value_to_i64, value_to_string, AttrValue};

fn raw_span(attributes: Vec<(String, AttrValue)>) -> RawSpan {
    RawSpan {
        trace_id: "00".into(),
        span_id: "01".into(),
        parent_span_id: String::new(),
        name: "run_sampling_request".into(),
        started_at: 0,
        ended_at: 0,
        attributes,
        events: vec![],
    }
}

#[test]
fn hex_writes_two_lowercase_digits_per_byte() {
    assert_eq!(hex(&[0x00, 0xab, 0x0f, 0xf0]), "00ab0ff0");
    assert_eq!(hex(&[]), "");
    assert_eq!(hex(&[9; 3]), "090909");
}

#[test]
fn nanos_saturate_at_the_largest_i64() {
    assert_eq!(nanos_to_i64(0), 0);
    assert_eq!(nanos_to_i64(1_700_000_000_000_000_000), 1_700_000_000_000_000_000);
    assert_eq!(nanos_to_i64(i64::MAX as u64), i64::MAX);
    assert_eq!(nanos_to_i64(i64::MAX as u64 + 1), i64::MAX);
    assert_eq!(nanos_to_i64(u64::MAX), i64::MAX);
}

#[test]
fn known_spans_and_discarded_events_are_classified() {
    for name in ["session_task.turn", "turn/start", "auth", "thread/start", "append_items"] {
        assert!(known_span(name), "{name}");
    }
    assert!(!known_span("codex.future_span"));
    assert!(!known_span("Auth"));
    assert!(!known_span(""));
    assert!(discarded_event("codex.api_request"));
    assert!(discarded_event("codex.startup_phase"));
    assert!(discarded_event("codex.websocket_request"));
    assert!(!discarded_event("codex.tool_result"));
}

#[test]
fn kinds_have_their_stored_names() {
    assert_eq!(ToolKind::Builtin.as_str(), "builtin");
    assert_eq!(ToolKind::Mcp.as_str(), "mcp");
    assert_eq!(ToolKind::Unknown.as_str(), "unknown");
    assert_eq!(TelemetryKind::Span.as_str(), "Span");
    assert_eq!(TelemetryKind::Event.as_str(), "Event");
}

#[test]
fn accumulator_counts_and_lists_by_kind_then_name() {
    let mut acc = UnknownAccumulator::new();
    acc.record("b", TelemetryKind::Span, 5);
    acc.record("b", TelemetryKind::Span, 3);
    acc.record("b", TelemetryKind::Span, 9);
    acc.record("a", TelemetryKind::Span, 1);
    acc.record("b", TelemetryKind::Event, 2);
    let listed = acc.finish();
    let rows: Vec<(&str, &str, i64, i64, i64)> = listed
        .iter()
        .map(|u| (u.kind.as_str(), u.name.as_str(), u.count, u.first_seen, u.last_seen))
        .collect();
    assert_eq!(
        rows,
        vec![("Event", "b", 1, 2, 2), ("Span", "a", 1, 1, 1), ("Span", "b", 3, 3, 9)]
    );
    assert!(UnknownAccumulator::new().finish().is_empty());
}

#[test]
fn integers_parse_as_std_does() {
    assert_eq!(parse_i64("42"), Some(42));
    assert_eq!(parse_i64("-7"), Some(-7));
    assert_eq!(parse_i64("+3"), Some(3));
    assert_eq!(parse_i64("007"), Some(7));
    assert_eq!(parse_i64("-9223372036854775808"), Some(i64::MIN));
    assert_eq!(parse_i64("9223372036854775807"), Some(i64::MAX));
    assert_eq!(parse_i64("9223372036854775808"), None);
    assert_eq!(parse_i64(""), None);
    assert_eq!(parse_i64("-"), None);
    assert_eq!(parse_i64("1.5"), None);
    assert_eq!(parse_i64(" 1"), None);
    for s in ["0", "-0", "12345", "+99", "x1"] {
        assert_eq!(parse_i64(s), s.parse::<i64>().ok(), "{s}");
    }
}

#[test]
fn booleans_parse_as_std_does() {
    assert_eq!(parse_bool("true"), Some(true));
    assert_eq!(parse_bool("false"), Some(false));
    assert_eq!(parse_bool("True"), None);
    assert_eq!(parse_bool(""), None);
}

#[test]
fn decimals_are_written_as_std_does() {
    for n in [0u64, 7, 10, 1234567890, u64::MAX] {
        assert_eq!(u64_to_decimal(n), n.to_string());
    }
    for n in [0i64, -1, 42, i64::MIN, i64::MAX] {
        assert_eq!(i64_to_decimal(n), n.to_string());
    }
}

#[test]
fn text_compares_by_characters() {
    assert!(compare_text("a", "b") < 0);
    assert!(compare_text("b", "a") > 0);
    assert_eq!(compare_text("same", "same"), 0);
    assert!(compare_text("ab", "abc") < 0);
    assert!(compare_text("", "a") < 0);
    assert!(compare_text("Z", "a") < 0);
}

#[test]
fn values_convert_to_text_integers_and_booleans() {
    assert_eq!(value_to_string(&AttrValue::Str("x".into())), Some("x".to_owned()));
    assert_eq!(value_to_string(&AttrValue::Int(-5)), Some("-5".to_owned()));
    assert_eq!(value_to_string(&AttrValue::UInt(u64::MAX)), Some(u64::MAX.to_string()));
    assert_eq!(value_to_string(&AttrValue::Float("1.5".into())), Some("1.5".to_owned()));
    assert_eq!(value_to_string(&AttrValue::Bool(true)), None);
    assert_eq!(value_to_string(&AttrValue::Null), None);
    assert_eq!(value_to_i64(&AttrValue::Int(8)), Some(8));
    assert_eq!(value_to_i64(&AttrValue::Str("12".into())), Some(12));
    assert_eq!(value_to_i64(&AttrValue::Str("1x".into())), None);
    assert_eq!(value_to_i64(&AttrValue::Float("2.0".into())), None);
    assert_eq!(value_to_i64(&AttrValue::UInt(u64::MAX)), None);
    let attrs = vec![
        ("flag".to_owned(), AttrValue::Str("true".into())),
        ("other".to_owned(), AttrValue::Bool(false)),
        ("n".to_owned(), AttrValue::Int(3)),
        ("n".to_owned(), AttrValue::Int(4)),
        ("bad".to_owned(), AttrValue::Int(1)),
    ];
    assert_eq!(bool_attr(&attrs, "flag"), Some(true));
    assert_eq!(bool_attr(&attrs, "other"), Some(false));
    assert_eq!(bool_attr(&attrs, "bad"), None);
    assert_eq!(bool_attr(&attrs, "missing"), None);
    assert_eq!(i64_attr(&attrs, "n"), Some(4));
    assert_eq!(string_attr(&attrs, "n"), Some("4".to_owned()));
}

#[test]
fn otlp_values_become_attribute_values() {
    assert_eq!(any_value_to_json(&OtlpAnyValue::StringValue("s".into())), Some(AttrValue::Str("s".into())));
    assert_eq!(any_value_to_json(&OtlpAnyValue::IntValue(-3)), Some(AttrValue::Int(-3)));
    assert_eq!(any_value_to_json(&OtlpAnyValue::BoolValue(true)), Some(AttrValue::Bool(true)));
    assert_eq!(any_value_to_json(&OtlpAnyValue::DoubleValue(Some("2.5".into()))), Some(AttrValue::Float("2.5".into())));
    assert_eq!(any_value_to_json(&OtlpAnyValue::DoubleValue(None)), None);
    assert_eq!(any_value_to_json(&OtlpAnyValue::BytesValue(vec![1, 2])), None);
    assert_eq!(
        any_value_to_json(&OtlpAnyValue::ArrayValue(vec![
            Some(OtlpAnyValue::IntValue(1)),
            None,
            Some(OtlpAnyValue::BytesValue(vec![])),
            Some(OtlpAnyValue::StringValue("x".into())),
        ])),
        Some(AttrValue::Array(vec![AttrValue::Int(1), AttrValue::Str("x".into())]))
    );
    let kv = vec![
        OtlpKeyValue { key: "a".into(), value: Some(OtlpAnyValue::IntValue(1)) },
        OtlpKeyValue { key: "b".into(), value: None },
        OtlpKeyValue { key: "c".into(), value: Some(OtlpAnyValue::BytesValue(vec![])) },
    ];
    assert_eq!(attributes(&kv), vec![("a".to_owned(), AttrValue::Int(1))]);
}

#[test]
fn span_input_is_read_from_json_text_object_prefix_or_key() {
    let from_text = raw_span(vec![("input".into(), AttrValue::Str("{\"turn_id\": \"t-9\", \"n\": 5}".into()))]);
    assert_eq!(input_string(&from_text, "turn_id"), Some("t-9".to_owned()));
    assert_eq!(input_i64(&from_text, "n"), Some(5));
    let from_object = raw_span(vec![(
        "input".into(),
        AttrValue::Object(vec![("turn_id".into(), AttrValue::Str("t-8".into()))]),
    )]);
    assert_eq!(input_string(&from_object, "turn_id"), Some("t-8".to_owned()));
    let prefixed = raw_span(vec![
        ("turn_id".into(), AttrValue::Str("plain".into())),
        ("input.turn_id".into(), AttrValue::Str("prefixed".into())),
    ]);
    assert_eq!(input_string(&prefixed, "turn_id"), Some("prefixed".to_owned()));
    let plain = raw_span(vec![("turn_id".into(), AttrValue::Int(12))]);
    assert_eq!(input_string(&plain, "turn_id"), Some("12".to_owned()));
    let not_json = raw_span(vec![
        ("input".into(), AttrValue::Str("not json".into())),
        ("cwd".into(), AttrValue::Str("/w".into())),
    ]);
    assert_eq!(input_string(&not_json, "cwd"), Some("/w".to_owned()));
    assert_eq!(input_string(&not_json, "missing"), None);
}

#[test]
fn recording_order_does_not_change_the_listing() {
    let sightings = [
        ("x", TelemetryKind::Span, 7),
        ("y", TelemetryKind::Event, 3),
        ("x", TelemetryKind::Span, 2),
        ("x", TelemetryKind::Event, 9),
    ];
    let mut forward = UnknownAccumulator::new();
    for (name, kind, t) in sightings {
        forward.record(name, kind, t);
    }
    let mut backward = UnknownAccumulator::new();
    for (name, kind, t) in sightings.iter().rev() {
        backward.record(name, *kind, *t);
    }
    assert_eq!(forward.finish(), backward.finish());
}
