use codex_activity_compiler::compile::compile;
use codex_activity_compiler::model::{CompiledTelemetry, TelemetryKind, ToolCall, ToolKind, Turn};
use codex_activity_compiler::otlp::{
    OtlpAnyValue, OtlpEvent, OtlpRequest, OtlpKeyValue, OtlpResourceSpans, OtlpScopeSpans, OtlpSpan,
};

fn fixture_request() -> OtlpRequest {
    let trace = vec![9; 16];
    let spans = vec![
        span(
            trace.clone(),
            vec![1],
            vec![],
            "turn/start",
            100,
            101,
            input(vec![("turn.id", string("turn-1"))]),
            vec![],
        ),
        span(
            trace.clone(),
            vec![2],
            vec![1],
            "op.dispatch.turn_input",
            110,
            111,
            vec![],
            vec![event(
                120,
                "event",
                vec![
                    ("event.name", string("codex.user_prompt")),
                    ("conversation.id", string("session-1")),
                    ("prompt_length", integer(42)),
                ],
            )],
        ),
        span(
            trace.clone(),
            vec![3],
            vec![1],
            "session_task.turn",
            130,
            160,
            input(vec![(
                "input",
                object(vec![
                    ("turn.id", string("turn-1")),
                    ("model", string("gpt-test")),
                    ("codex.turn.reasoning_effort", string("high")),
                    ("codex.turn.token_usage.input_tokens", integer(10)),
                    ("codex.turn.token_usage.cached_input_tokens", integer(5)),
                    ("codex.turn.token_usage.output_tokens", integer(20)),
                    ("codex.turn.token_usage.reasoning_output_tokens", integer(7)),
                    ("codex.turn.token_usage.total_tokens", integer(999)),
                ]),
            )]),
            vec![],
        ),
        span(
            trace.clone(),
            vec![4],
            vec![3],
            "run_sampling_request",
            131,
            132,
            input(vec![
                ("turn_id", string("turn-1")),
                ("cwd", string("/work/project")),
                ("model", string("fallback-model")),
            ]),
            vec![],
        ),
        span(
            trace.clone(),
            vec![5],
            vec![3],
            "try_run_sampling_request",
            133,
            134,
            input(vec![("turn_id", string("turn-1"))]),
            vec![event(
                135,
                "event",
                vec![
                    ("event.name", string("codex.turn_ttft")),
                    ("duration_ms", integer(17)),
                ],
            )],
        ),
        span(
            trace.clone(),
            vec![6],
            vec![],
            "dispatch_tool_call_with_terminal_outcome",
            140,
            160,
            vec![],
            vec![
                tool_event(150, "builtin-1", "builtin", false, 50),
                tool_event(160, "builtin-1", "builtin", false, 50),
            ],
        ),
        span(
            trace.clone(),
            vec![7],
            vec![1],
            "mcp.tools.call",
            140,
            150,
            input(vec![
                ("conversation.id", string("session-1")),
                ("tool.call_id", string("mcp-1")),
                ("turn.id", string("turn-1")),
            ]),
            vec![],
        ),
        span(
            trace.clone(),
            vec![8],
            vec![1],
            "dispatch_tool_call_with_terminal_outcome",
            140,
            200,
            vec![],
            vec![
                tool_event(190, "mcp-1", "mcp", true, 1),
                tool_event(200, "mcp-1", "mcp", true, 2),
                event(210, "event", vec![("event.name", string("codex.future_event"))]),
                event(220, "event", vec![("event.name", string("codex.future_event"))]),
            ],
        ),
        span(trace.clone(), vec![10], vec![], "codex.future_span", 300, 301, vec![], vec![]),
        span(trace.clone(), vec![11], vec![], "codex.future_span", 400, 401, vec![], vec![]),
        span(
            trace,
            vec![12],
            vec![],
            "append_items",
            500,
            501,
            vec![],
            vec![event(500, "event", vec![("event.name", string("codex.api_request"))])],
        ),
    ];
    request(spans)
}

fn request(spans: Vec<OtlpSpan>) -> OtlpRequest {
    OtlpRequest {
        resource_spans: vec![OtlpResourceSpans {
            scope_spans: vec![OtlpScopeSpans { spans }],
        }],
    }
}

#[allow(clippy::too_many_arguments)]
fn span(
    trace_id: Vec<u8>,
    span_id: Vec<u8>,
    parent_span_id: Vec<u8>,
    name: &str,
    started_at: u64,
    ended_at: u64,
    attributes: Vec<OtlpKeyValue>,
    events: Vec<OtlpEvent>,
) -> OtlpSpan {
    OtlpSpan {
        trace_id,
        span_id,
        parent_span_id,
        name: name.into(),
        start_time_unix_nano: started_at,
        end_time_unix_nano: ended_at,
        attributes,
        events,
    }
}

fn event(timestamp: u64, name: &str, attributes: Vec<(&str, OtlpAnyValue)>) -> OtlpEvent {
    OtlpEvent {
        time_unix_nano: timestamp,
        name: name.into(),
        attributes: input(attributes),
    }
}

fn tool_event(timestamp: u64, call_id: &str, origin: &str, is_mcp: bool, output_bytes: i64) -> OtlpEvent {
    event(
        timestamp,
        "event",
        vec![
            ("event.name", string("codex.tool_result")),
            ("call_id", string(call_id)),
            ("conversation.id", string("session-1")),
            ("tool_name", string("safe_tool")),
            ("mcp_tool", boolean(is_mcp)),
            ("tool_origin", string(origin)),
            ("success", boolean(true)),
            ("arguments_length", integer(11)),
            ("output_length", integer(output_bytes)),
            ("output_line_count", integer(2)),
            ("output_truncated", boolean(false)),
            ("duration_ms", integer(13)),
        ],
    )
}

fn input(values: Vec<(&str, OtlpAnyValue)>) -> Vec<OtlpKeyValue> {
    values
        .into_iter()
        .map(|(key, value)| OtlpKeyValue {
            key: key.into(),
            value: Some(value),
        })
        .collect()
}

fn string(value: &str) -> OtlpAnyValue {
    OtlpAnyValue::StringValue(value.into())
}

fn integer(value: i64) -> OtlpAnyValue {
    OtlpAnyValue::IntValue(value)
}

fn boolean(value: bool) -> OtlpAnyValue {
    OtlpAnyValue::BoolValue(value)
}

fn object(values: Vec<(&str, OtlpAnyValue)>) -> OtlpAnyValue {
    OtlpAnyValue::KvlistValue(input(values))
}

fn find_turn<'a>(compiled: &'a CompiledTelemetry, session_id: &str, id: &str) -> &'a Turn {
    compiled
        .turns
        .iter()
        .find(|turn| turn.session_id == session_id && turn.id == id)
        .expect("turn")
}

fn tool_row(tool: &ToolCall) -> (String, Option<String>, String, i64, i64) {
    (
        tool.id.clone(),
        tool.turn_id.clone(),
        tool.kind.as_str().to_owned(),
        tool.output_bytes,
        tool.completed_at,
    )
}

#[test]
fn canonical_turn_is_normalized_and_saved_without_derived_duration() {
    let compiled = compile(fixture_request());
    let turn = find_turn(&compiled, "session-1", "turn-1");
    let row = (
        turn.model.clone().unwrap(),
        turn.input_tokens.unwrap(),
        turn.output_tokens.unwrap(),
        turn.total_tokens.unwrap(),
        turn.cwd.clone().unwrap(),
        turn.prompt_length.unwrap(),
        turn.ttft_ms.unwrap(),
        turn.ended_at - turn.started_at,
    );
    assert_eq!(
        row,
        (
            "gpt-test".to_owned(),
            10,
            20,
            999,
            "/work/project".to_owned(),
            42,
            17,
            30
        )
    );
}

#[test]
fn tool_calls_are_deduplicated_and_mcp_is_linked_by_explicit_key() {
    let compiled = compile(fixture_request());
    let mut tools: Vec<_> = compiled.tool_calls.iter().map(tool_row).collect();
    tools.sort_by(|a, b| a.0.cmp(&b.0));
    assert_eq!(tools.len(), 2);
    assert_eq!(tools[0], ("builtin-1".into(), None, "builtin".into(), 50, 160));
    assert_eq!(tools[1], ("mcp-1".into(), Some("turn-1".into()), "mcp".into(), 2, 200));
}

#[test]
fn unknown_telemetry_is_aggregated_and_known_discarded_telemetry_is_not_saved() {
    let compiled = compile(fixture_request());
    let span = compiled
        .unknown
        .iter()
        .find(|u| u.kind == TelemetryKind::Span && u.name == "codex.future_span")
        .unwrap();
    assert_eq!((span.count, span.first_seen, span.last_seen), (2, 300, 400));
    let event = compiled
        .unknown
        .iter()
        .find(|u| u.kind == TelemetryKind::Event && u.name == "codex.future_event")
        .unwrap();
    assert_eq!(event.count, 2);
    let discarded = compiled
        .unknown
        .iter()
        .filter(|u| u.name == "append_items" || u.name == "codex.api_request")
        .count();
    assert_eq!(discarded, 0);
}

#[test]
fn fixture_compiles_to_one_session_one_turn_and_sorted_records() {
    let compiled = compile(fixture_request());
    assert_eq!(compiled.sessions, vec!["session-1".to_owned()]);
    assert_eq!(compiled.turns.len(), 1);
    let turn = &compiled.turns[0];
    assert_eq!(turn.reasoning_effort.as_deref(), Some("high"));
    assert_eq!(turn.cached_input_tokens, Some(5));
    assert_eq!(turn.reasoning_output_tokens, Some(7));
    assert_eq!((turn.started_at, turn.ended_at), (130, 160));
    let ids: Vec<&str> = compiled.tool_calls.iter().map(|t| t.id.as_str()).collect();
    assert_eq!(ids, vec!["builtin-1", "mcp-1"]);
    let mcp = &compiled.tool_calls[1];
    assert_eq!(mcp.kind, ToolKind::Mcp);
    assert_eq!(
        (mcp.success, mcp.input_bytes, mcp.output_line_count, mcp.output_truncated, mcp.duration_ms),
        (true, 11, 2, false, 13)
    );
    let keys: Vec<(&str, &str)> = compiled
        .unknown
        .iter()
        .map(|u| (u.kind.as_str(), u.name.as_str()))
        .collect();
    assert_eq!(keys, vec![("Event", "codex.future_event"), ("Span", "codex.future_span")]);
}

#[test]
fn tool_results_with_equal_timestamps_keep_the_first() {
    let spans = vec![span(
        vec![1],
        vec![1],
        vec![],
        "dispatch_tool_call_with_terminal_outcome",
        1,
        2,
        vec![],
        vec![
            tool_event(70, "call-1", "builtin", false, 5),
            tool_event(70, "call-1", "builtin", false, 6),
            tool_event(60, "call-1", "builtin", false, 7),
        ],
    )];
    let compiled = compile(request(spans));
    assert_eq!(compiled.tool_calls.len(), 1);
    assert_eq!(compiled.tool_calls[0].output_bytes, 5);
    assert_eq!(compiled.tool_calls[0].completed_at, 70);
    assert_eq!(compiled.tool_calls[0].turn_id, None);
    assert_eq!(compiled.sessions, vec!["session-1".to_owned()]);
}

#[test]
fn unknown_counts_span_every_sighting() {
    let spans = vec![
        span(vec![1], vec![1], vec![], "new.span", 50, 51, vec![], vec![
            event(40, "new.event", vec![]),
            event(90, "x", vec![("event.name", string("new.event"))]),
        ]),
        span(vec![1], vec![2], vec![], "new.span", 10, 11, vec![], vec![]),
        span(vec![1], vec![3], vec![], "new.span", 30, 31, vec![], vec![
            event(5, "event", vec![("event.name", string("codex.startup_phase"))]),
            event(6, "event", vec![("event.name", string("codex.websocket_request"))]),
            event(7, "event", vec![("event.name", string("codex.user_prompt"))]),
            event(8, "event", vec![("event.name", string("codex.tool_result"))]),
        ]),
        span(vec![1], vec![4], vec![], "auth", 1, 2, vec![], vec![]),
    ];
    let compiled = compile(request(spans));
    assert_eq!(compiled.unknown.len(), 2);
    let event = &compiled.unknown[0];
    assert_eq!((event.kind, event.name.as_str()), (TelemetryKind::Event, "new.event"));
    assert_eq!((event.count, event.first_seen, event.last_seen), (2, 40, 90));
    let span_entry = &compiled.unknown[1];
    assert_eq!((span_entry.kind, span_entry.name.as_str()), (TelemetryKind::Span, "new.span"));
    assert_eq!((span_entry.count, span_entry.first_seen, span_entry.last_seen), (3, 10, 50));
    assert!(compiled.tool_calls.is_empty());
}

#[test]
fn builtin_tool_is_linked_to_a_canonical_turn_by_its_ancestors() {
    let trace = vec![3; 4];
    let spans = vec![
        span(trace.clone(), vec![1], vec![], "turn/start", 1, 2, input(vec![("turn.id", string("t-1"))]), vec![]),
        span(trace.clone(), vec![2], vec![1], "op.dispatch.turn_input", 3, 4, vec![], vec![event(
            5,
            "event",
            vec![
                ("event.name", string("codex.user_prompt")),
                ("conversation.id", string("session-1")),
            ],
        )]),
        span(trace.clone(), vec![3], vec![1], "session_task.turn", 6, 9, input(vec![("turn.id", string("t-1"))]), vec![]),
        span(trace.clone(), vec![4], vec![3], "dispatch_tool_call_with_terminal_outcome", 7, 8, vec![], vec![
            tool_event(8, "b-1", "builtin", false, 1),
        ]),
        span(trace.clone(), vec![5], vec![], "dispatch_tool_call_with_terminal_outcome", 7, 8, vec![], vec![
            tool_event(8, "b-2", "builtin", false, 1),
        ]),
    ];
    let compiled = compile(request(spans));
    assert_eq!(compiled.turns.len(), 1);
    assert_eq!(compiled.turns[0].model, None);
    assert_eq!(compiled.turns[0].prompt_length, None);
    assert_eq!(compiled.tool_calls.len(), 2);
    assert_eq!(compiled.tool_calls[0].turn_id.as_deref(), Some("t-1"));
    assert_eq!(compiled.tool_calls[1].turn_id, None);
}

#[test]
fn turn_without_a_single_session_is_not_canonical() {
    let trace = vec![4; 4];
    let prompt = |session: &str| {
        event(5, "event", vec![
            ("event.name", string("codex.user_prompt")),
            ("conversation.id", string(session)),
        ])
    };
    let spans = vec![
        span(trace.clone(), vec![1], vec![], "turn/start", 1, 2, input(vec![("turn.id", string("t-1"))]), vec![]),
        span(trace.clone(), vec![2], vec![1], "op.dispatch.turn_input", 3, 4, vec![], vec![prompt("a"), prompt("b")]),
        span(trace.clone(), vec![3], vec![1], "session_task.turn", 6, 9, input(vec![
            ("turn.id", string("t-1")),
            ("thread.id", string("a")),
        ]), vec![]),
    ];
    let compiled = compile(request(spans));
    assert!(compiled.turns.is_empty());
    assert!(compiled.sessions.is_empty());
}

#[test]
fn parent_cycle_resolves_no_turn() {
    let trace = vec![5; 4];
    let spans = vec![
        span(trace.clone(), vec![1], vec![2], "op.dispatch.turn_input", 3, 4, vec![], vec![event(
            5,
            "event",
            vec![
                ("event.name", string("codex.user_prompt")),
                ("conversation.id", string("s")),
            ],
        )]),
        span(trace.clone(), vec![2], vec![1], "session_task.turn", 6, 9, input(vec![("turn.id", string("t-1"))]), vec![]),
    ];
    let compiled = compile(request(spans));
    assert!(compiled.turns.is_empty());
    assert!(compiled.sessions.is_empty());
    assert!(compiled.unknown.is_empty());
}

#[test]
fn turn_model_falls_back_to_sampling_request_and_input_json_is_read() {
    let trace = vec![6; 4];
    let spans = vec![
        span(trace.clone(), vec![1], vec![], "turn/start", 1, 2, input(vec![("input.turn.id", string("t-1"))]), vec![]),
        span(trace.clone(), vec![2], vec![1], "op.dispatch.turn_input", 3, 4, vec![], vec![event(
            5,
            "event",
            vec![
                ("event.name", string("codex.user_prompt")),
                ("conversation.id", string("s")),
                ("prompt_length", string("12")),
            ],
        )]),
        span(trace.clone(), vec![3], vec![1], "session_task.turn", 6, 9, input(vec![(
            "input",
            string("{\"turn.id\":\"t-1\",\"codex.turn.token_usage.total_tokens\":\"77\"}"),
        )]), vec![]),
        span(trace.clone(), vec![4], vec![3], "run_sampling_request", 7, 8, input(vec![
            ("turn_id", string("t-1")),
            ("model", string("fallback-model")),
        ]), vec![]),
    ];
    let compiled = compile(request(spans));
    assert_eq!(compiled.turns.len(), 1);
    let turn = &compiled.turns[0];
    assert_eq!(turn.id, "t-1");
    assert_eq!(turn.model.as_deref(), Some("fallback-model"));
    assert_eq!(turn.total_tokens, Some(77));
    assert_eq!(turn.prompt_length, Some(12));
    assert_eq!(turn.cwd, None);
    assert_eq!(turn.ttft_ms, None);
}

#[test]
fn inconsistent_tool_origin_is_unknown_kind() {
    let spans = vec![span(vec![1], vec![1], vec![], "dispatch_tool_call_with_terminal_outcome", 1, 2, vec![], vec![
        tool_event(3, "c-1", "builtin", true, 1),
        tool_event(3, "c-2", "mcp", false, 1),
    ])];
    let compiled = compile(request(spans));
    assert_eq!(compiled.tool_calls.len(), 2);
    assert_eq!(compiled.tool_calls[0].kind, ToolKind::Unknown);
    assert_eq!(compiled.tool_calls[1].kind, ToolKind::Unknown);
}

#[test]
fn tool_result_missing_an_attribute_is_dropped_but_not_unknown() {
    let spans = vec![span(vec![1], vec![1], vec![], "dispatch_tool_call_with_terminal_outcome", 1, 2, vec![], vec![
        event(3, "event", vec![
            ("event.name", string("codex.tool_result")),
            ("call_id", string("c-1")),
            ("conversation.id", string("s")),
        ]),
    ])];
    let compiled = compile(request(spans));
    assert!(compiled.tool_calls.is_empty());
    assert!(compiled.sessions.is_empty());
    assert!(compiled.unknown.is_empty());
}

#[test]
fn negative_integers_are_not_read_as_counts() {
    let trace = vec![8; 4];
    let spans = vec![
        span(trace.clone(), vec![1], vec![], "turn/start", 1, 2, input(vec![("turn.id", string("t-1"))]), vec![]),
        span(trace.clone(), vec![2], vec![1], "op.dispatch.turn_input", 3, 4, vec![], vec![event(
            5,
            "event",
            vec![
                ("event.name", string("codex.user_prompt")),
                ("conversation.id", string("session-1")),
                ("prompt_length", integer(-3)),
            ],
        )]),
        span(trace.clone(), vec![3], vec![1], "session_task.turn", 6, 9, input(vec![
            ("turn.id", string("t-1")),
            ("codex.turn.token_usage.input_tokens", integer(-10)),
            ("codex.turn.token_usage.output_tokens", string("-2")),
            ("codex.turn.token_usage.total_tokens", integer(0)),
        ]), vec![]),
        span(trace.clone(), vec![4], vec![3], "try_run_sampling_request", 7, 8, input(vec![("turn_id", string("t-1"))]), vec![
            event(8, "event", vec![("event.name", string("codex.turn_ttft")), ("duration_ms", integer(-1))]),
        ]),
        span(trace.clone(), vec![5], vec![], "dispatch_tool_call_with_terminal_outcome", 7, 8, vec![], vec![
            tool_event(8, "neg-1", "builtin", false, -1),
            tool_event(8, "zero-1", "builtin", false, 0),
        ]),
    ];
    let compiled = compile(request(spans));
    assert_eq!(compiled.turns.len(), 1);
    let turn = &compiled.turns[0];
    assert_eq!(turn.input_tokens, None);
    assert_eq!(turn.output_tokens, None);
    assert_eq!(turn.total_tokens, Some(0));
    assert_eq!(turn.ttft_ms, None);
    assert_eq!(turn.prompt_length, None);
    let ids: Vec<&str> = compiled.tool_calls.iter().map(|t| t.id.as_str()).collect();
    assert_eq!(ids, vec!["zero-1"]);
    assert_eq!(compiled.tool_calls[0].output_bytes, 0);
}

#[test]
fn grouping_of_spans_does_not_change_the_compilation() {
    let flat = compile(fixture_request());
    let mut spans: Vec<OtlpSpan> = fixture_request()
        .resource_spans
        .into_iter()
        .flat_map(|r| r.scope_spans)
        .flat_map(|s| s.spans)
        .collect();
    let rest = spans.split_off(4);
    let (middle, last) = {
        let mut rest = rest;
        let last = rest.split_off(3);
        (rest, last)
    };
    let grouped = compile(OtlpRequest {
        resource_spans: vec![
            OtlpResourceSpans {
                scope_spans: vec![OtlpScopeSpans { spans }, OtlpScopeSpans { spans: middle }],
            },
            OtlpResourceSpans { scope_spans: vec![] },
            OtlpResourceSpans {
                scope_spans: vec![OtlpScopeSpans { spans: last }],
            },
        ],
    });
    assert_eq!(flat.sessions, grouped.sessions);
    assert_eq!(flat.turns, grouped.turns);
    assert_eq!(flat.tool_calls, grouped.tool_calls);
    assert_eq!(flat.unknown, grouped.unknown);
}

#[test]
fn renaming_ids_does_not_change_the_compilation() {
    let flat = compile(fixture_request());
    let mut renamed = fixture_request();
    for resource in &mut renamed.resource_spans {
        for scope in &mut resource.scope_spans {
            for span in &mut scope.spans {
                span.trace_id = vec![1, 2, 3];
                span.span_id = span.span_id.iter().map(|b| b + 100).chain([7]).collect();
                if !span.parent_span_id.is_empty() {
                    span.parent_span_id = span.parent_span_id.iter().map(|b| b + 100).chain([7]).collect();
                }
            }
        }
    }
    let renamed = compile(renamed);
    assert_eq!(flat.sessions, renamed.sessions);
    assert_eq!(flat.turns, renamed.turns);
    assert_eq!(flat.tool_calls, renamed.tool_calls);
    assert_eq!(flat.unknown, renamed.unknown);
}
