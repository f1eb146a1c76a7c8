//! Where the compiler reads a span's inputs and an event's name from.
use vstd::prelude::*;

use crate::raw::{RawEvent, RawEventView, RawSpan, RawSpanView};
use crate::value::{
    and_then_count, and_then_i64, and_then_string, copy_value, get_attr, map_get, opt_json,
    opt_text, parse_json, parsed_json, string_attr, value_to_i64, value_to_string, AttrValue,
    JsonView,
};

verus! {

/// The name an event is known by: its `event.name` attribute read as a string,
/// else the event's own name.
pub open spec fn spec_event_identity(e: RawEventView) -> Seq<char> {
    match and_then_string(map_get(e.attributes, "event.name"@)) {
        Some(n) => n,
        None => e.name,
    }
}

/// The name an event is known by.
pub fn event_identity(event: &RawEvent) -> (r: String)
    ensures
        r@ == spec_event_identity(event@),
{
    match string_attr(&event.attributes, "event.name") {
        Some(n) => n,
        None => event.name.clone(),
    }
}

/// The field `key` of the object that the span's `input` attribute holds as JSON text.
pub open spec fn input_text_field(span: RawSpanView, key: Seq<char>) -> Option<JsonView> {
    match map_get(span.attributes, "input"@) {
        Some(JsonView::Str(text)) => match parsed_json(text) {
            Some(JsonView::Object(m)) => map_get(m, key),
            _ => None,
        },
        _ => None,
    }
}

/// The field `key` of the object that the span's `input` attribute holds.
pub open spec fn input_object_field(span: RawSpanView, key: Seq<char>) -> Option<JsonView> {
    match map_get(span.attributes, "input"@) {
        Some(JsonView::Object(m)) => map_get(m, key),
        _ => None,
    }
}

/// A span's input `key`: first a field of the `input` object (written as JSON
/// text or held as an object), then the attribute `input.<key>`, then the
/// attribute `key` itself.
pub open spec fn spec_input_value(span: RawSpanView, key: Seq<char>) -> Option<JsonView> {
    if input_text_field(span, key) is Some {
        input_text_field(span, key)
    } else if input_object_field(span, key) is Some {
        input_object_field(span, key)
    } else if map_get(span.attributes, "input."@ + key) is Some {
        map_get(span.attributes, "input."@ + key)
    } else {
        map_get(span.attributes, key)
    }
}

/// A span's input `key`.
pub fn input_value(span: &RawSpan, key: &str) -> (r: Option<AttrValue>)
    ensures
        opt_json(r) == spec_input_value(span@, key@),
{
    let input = get_attr(&span.attributes, "input");
    if let Some(AttrValue::Str(text)) = input {
        if let Some(AttrValue::Object(fields)) = parse_json(text.as_str()) {
            if let Some(v) = get_attr(&fields, key) {
                return Some(copy_value(v));
            }
        }
    }
    if let Some(AttrValue::Object(fields)) = input {
        if let Some(v) = get_attr(fields, key) {
            return Some(copy_value(v));
        }
    }
    let mut dotted = String::from_str("input.");
    dotted.append(key);
    match get_attr(&span.attributes, dotted.as_str()) {
        Some(v) => Some(copy_value(v)),
        None => match get_attr(&span.attributes, key) {
            Some(v) => Some(copy_value(v)),
            None => None,
        },
    }
}

/// A span's input `key` read as a string.
pub fn input_string(span: &RawSpan, key: &str) -> (r: Option<String>)
    ensures
        opt_text(r) == and_then_string(spec_input_value(span@, key@)),
{
    match input_value(span, key) {
        Some(v) => value_to_string(&v),
        None => None,
    }
}

/// A span's input `key` read as an `i64`.
pub fn input_i64(span: &RawSpan, key: &str) -> (r: Option<i64>)
    ensures
        r == and_then_i64(spec_input_value(span@, key@)),
{
    match input_value(span, key) {
        Some(v) => value_to_i64(&v),
        None => None,
    }
}

/// A span's input `key` read as a count: an `i64` that is not negative.
pub fn input_count(span: &RawSpan, key: &str) -> (r: Option<i64>)
    ensures
        r == and_then_count(spec_input_value(span@, key@)),
{
    match input_i64(span, key) {
        Some(n) => if n >= 0 { Some(n) } else { None },
        None => None,
    }
}

} // verus!
