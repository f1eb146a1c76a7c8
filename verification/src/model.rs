//! The activity records that the compiler produces: sessions, turns, tool
//! calls, and counts of telemetry that no rule classifies.
use vstd::prelude::*;

use crate::value::opt_text;

verus! {

/// The telemetry of one batch, compiled.
#[derive(Debug, Default)]
pub struct CompiledTelemetry {
    /// The `conversation.id` of every session seen, in ascending order, each once.
    pub sessions: Vec<String>,
    /// Canonical turns, ordered by `(session_id, id)`.
    pub turns: Vec<Turn>,
    /// Tool calls, one per `(session_id, id)`, ordered by that key.
    pub tool_calls: Vec<ToolCall>,
    /// Unknown spans and events, one per `(kind, name)`, ordered by that key.
    pub unknown: Vec<UnknownTelemetry>,
}

#[derive(Debug, Clone, PartialEq, Eq)]
pub struct Turn {
    pub id: String,
    pub session_id: String,
    pub model: Option<String>,
    pub reasoning_effort: Option<String>,
    pub started_at: i64,
    pub ended_at: i64,
    pub ttft_ms: Option<i64>,
    pub input_tokens: Option<i64>,
    pub cached_input_tokens: Option<i64>,
    pub output_tokens: Option<i64>,
    pub reasoning_output_tokens: Option<i64>,
    pub total_tokens: Option<i64>,
    pub cwd: Option<String>,
    pub prompt_length: Option<i64>,
}

#[derive(Debug, Clone, PartialEq, Eq)]
pub struct ToolCall {
    pub id: String,
    pub session_id: String,
    pub turn_id: Option<String>,
    pub name: String,
    pub kind: ToolKind,
    pub success: bool,
    pub input_bytes: i64,
    pub output_bytes: i64,
    pub output_line_count: i64,
    pub output_truncated: bool,
    pub duration_ms: i64,
    pub completed_at: i64,
}

#[derive(Debug, Clone, Copy, PartialEq, Eq, Structural)]
pub enum ToolKind {
    Builtin,
    Mcp,
    Unknown,
}

pub open spec fn tool_kind_name(kind: ToolKind) -> Seq<char> {
    match kind {
        ToolKind::Builtin => "builtin"@,
        ToolKind::Mcp => "mcp"@,
        ToolKind::Unknown => "unknown"@,
    }
}

impl ToolKind {
    /// The name the store writes for the kind.
    pub fn as_str(self) -> (r: &'static str)
        ensures
            r@ == tool_kind_name(self),
    {
        match self {
            ToolKind::Builtin => "builtin",
            ToolKind::Mcp => "mcp",
            ToolKind::Unknown => "unknown",
        }
    }
}

#[derive(Debug, Clone, PartialEq, Eq)]
pub struct UnknownTelemetry {
    pub name: String,
    pub kind: TelemetryKind,
    pub count: i64,
    pub first_seen: i64,
    pub last_seen: i64,
}

#[derive(Debug, Clone, Copy, PartialEq, Eq, Structural)]
pub enum TelemetryKind {
    Span,
    Event,
}

pub open spec fn telemetry_kind_name(kind: TelemetryKind) -> Seq<char> {
    match kind {
        TelemetryKind::Span => "Span"@,
        TelemetryKind::Event => "Event"@,
    }
}

impl TelemetryKind {
    /// The name the store writes for the kind.
    pub fn as_str(self) -> (r: &'static str)
        ensures
            r@ == telemetry_kind_name(self),
    {
        match self {
            TelemetryKind::Span => "Span",
            TelemetryKind::Event => "Event",
        }
    }
}

// ---------------------------------------------------------------------------
// Views
// ---------------------------------------------------------------------------

pub struct TurnView {
    pub id: Seq<char>,
    pub session_id: Seq<char>,
    pub model: Option<Seq<char>>,
    pub reasoning_effort: Option<Seq<char>>,
    pub started_at: i64,
    pub ended_at: i64,
    pub ttft_ms: Option<i64>,
    pub input_tokens: Option<i64>,
    pub cached_input_tokens: Option<i64>,
    pub output_tokens: Option<i64>,
    pub reasoning_output_tokens: Option<i64>,
    pub total_tokens: Option<i64>,
    pub cwd: Option<Seq<char>>,
    pub prompt_length: Option<i64>,
}

impl View for Turn {
    type V = TurnView;

    open spec fn view(&self) -> TurnView {
        TurnView {
            id: self.id@,
            session_id: self.session_id@,
            model: opt_text(self.model),
            reasoning_effort: opt_text(self.reasoning_effort),
            started_at: self.started_at,
            ended_at: self.ended_at,
            ttft_ms: self.ttft_ms,
            input_tokens: self.input_tokens,
            cached_input_tokens: self.cached_input_tokens,
            output_tokens: self.output_tokens,
            reasoning_output_tokens: self.reasoning_output_tokens,
            total_tokens: self.total_tokens,
            cwd: opt_text(self.cwd),
            prompt_length: self.prompt_length,
        }
    }
}

pub struct ToolCallView {
    pub id: Seq<char>,
    pub session_id: Seq<char>,
    pub turn_id: Option<Seq<char>>,
    pub name: Seq<char>,
    pub kind: ToolKind,
    pub success: bool,
    pub input_bytes: i64,
    pub output_bytes: i64,
    pub output_line_count: i64,
    pub output_truncated: bool,
    pub duration_ms: i64,
    pub completed_at: i64,
}

impl View for ToolCall {
    type V = ToolCallView;

    open spec fn view(&self) -> ToolCallView {
        ToolCallView {
            id: self.id@,
            session_id: self.session_id@,
            turn_id: opt_text(self.turn_id),
            name: self.name@,
            kind: self.kind,
            success: self.success,
            input_bytes: self.input_bytes,
            output_bytes: self.output_bytes,
            output_line_count: self.output_line_count,
            output_truncated: self.output_truncated,
            duration_ms: self.duration_ms,
            completed_at: self.completed_at,
        }
    }
}

pub struct UnknownView {
    pub name: Seq<char>,
    pub kind: TelemetryKind,
    pub count: i64,
    pub first_seen: i64,
    pub last_seen: i64,
}

impl View for UnknownTelemetry {
    type V = UnknownView;

    open spec fn view(&self) -> UnknownView {
        UnknownView {
            name: self.name@,
            kind: self.kind,
            count: self.count,
            first_seen: self.first_seen,
            last_seen: self.last_seen,
        }
    }
}

pub open spec fn turns_view(turns: Seq<Turn>) -> Seq<TurnView> {
    turns.map_values(|t: Turn| t@)
}

pub open spec fn tools_view(tools: Seq<ToolCall>) -> Seq<ToolCallView> {
    tools.map_values(|t: ToolCall| t@)
}

pub open spec fn unknown_view(unknown: Seq<UnknownTelemetry>) -> Seq<UnknownView> {
    unknown.map_values(|u: UnknownTelemetry| u@)
}

pub open spec fn strings_view(strings: Seq<String>) -> Seq<Seq<char>> {
    strings.map_values(|s: String| s@)
}

} // verus!
