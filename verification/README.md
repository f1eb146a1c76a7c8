# Codex Activity Compiler

Compiles the OpenTelemetry traces that Codex exports into the records a person
reads: sessions, turns, tool calls, and counts of telemetry that no rule
classifies. Raw spans, attributes and trace identifiers are not kept.

## Layout

- `src/` is the library, verified with Verus.
  - `otlp.rs`: the parts of an OTLP export request that are read, as plain values.
  - `raw.rs`: spans flattened with hex identifiers, saturated times and JSON-shaped attributes.
  - `value.rs`, `text.rs`: attribute values, decimal text and integer parsing; JSON text is
    read with `serde_json` behind one trusted function.
  - `read.rs`: a span's `input` and an event's identity.
  - `links.rs`, `turn_info.rs`: parent and `turn/start` links, the session, prompt length,
    model, working directory and time to first token of each turn.
  - `decode.rs`: the protobuf body decoded with prost into opentelemetry-proto's messages,
    behind trusted items, and converted to `otlp.rs` values.
  - `compile.rs`: canonical turns, tool calls with their turns, unknown telemetry, `compile`
    and `compile_body`; `limits.rs` tests the size of a request.
  - `collect.rs`, `order.rs`, `entries.rs`, `unknown.rs`: the ordered collections that a
    compilation fills.
  - `laws.rs`: what holds of every compilation; `uniqueness.rs`: a compilation is determined
    by the spans it reads; `renaming.rs`: renaming trace and span ids changes no compilation.
- `app/` is the receiver: OTLP/HTTP with axum and tokio, and the SQLite store with rusqlite.
- `tests/` runs the library on concrete requests.

The receiver listens on `http://127.0.0.1:4318/v1/traces` and writes
`codex-activity.sqlite`; `CODEX_ACTIVITY_LISTEN` and `CODEX_ACTIVITY_DB` change them.
