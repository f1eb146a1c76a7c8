//! Compiles Codex OpenTelemetry traces into sessions, turns, tool calls and
//! counts of unknown telemetry, without keeping raw spans.
pub mod collect;
pub mod compile;
pub mod decode;
pub mod entries;
pub mod laws;
pub mod limits;
pub mod links;
pub mod model;
pub mod order;
pub mod otlp;
pub mod raw;
pub mod read;
pub mod record_laws;
pub mod renaming;
pub mod text;
pub mod turn_info;
pub mod uniqueness;
pub mod unknown;
pub mod value;
