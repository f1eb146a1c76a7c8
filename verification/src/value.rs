//! Attribute values: the JSON-shaped values that span and event attributes
//! carry, what reading them as a string, an integer or a boolean gives, and
//! the parse of JSON text that an `input` attribute may hold.
use vstd::prelude::*;

use crate::text::{
    decimal, i64_to_decimal, parse_bool, parse_i64, spec_parse_bool, spec_parse_i64, text_eq,
    u64_to_decimal,
};

verus! {

/// An attribute value, shaped like a JSON value. An object is a list of
/// entries in which a later entry for a key overrides an earlier one.
#[derive(Debug, PartialEq, Eq)]
pub enum AttrValue {
    Null,
    Bool(bool),
    /// A number that fits in `i64`.
    Int(i64),
    /// A non-negative number that fits in `u64`.
    UInt(u64),
    /// A number with a fraction or an exponent, held as its JSON text.
    Float(String),
    Str(String),
    Array(Vec<AttrValue>),
    Object(Vec<(String, AttrValue)>),
}

/// The mathematical value of an [`AttrValue`]; an object is a map.
pub enum JsonView {
    Null,
    Bool(bool),
    Int(i64),
    UInt(u64),
    Float(Seq<char>),
    Str(Seq<char>),
    Array(Seq<JsonView>),
    Object(Map<Seq<char>, JsonView>),
}

pub open spec fn json_view(v: &AttrValue) -> JsonView
    decreases v,
{
    match v {
        AttrValue::Null => JsonView::Null,
        AttrValue::Bool(b) => JsonView::Bool(*b),
        AttrValue::Int(i) => JsonView::Int(*i),
        AttrValue::UInt(u) => JsonView::UInt(*u),
        AttrValue::Float(t) => JsonView::Float(t@),
        AttrValue::Str(s) => JsonView::Str(s@),
        AttrValue::Array(a) => JsonView::Array(
            Seq::new(a@.len(), |i: int| if 0 <= i < a@.len() { json_view(&a@[i]) } else { JsonView::Null }),
        ),
        AttrValue::Object(fs) => JsonView::Object(fields_view(fs@)),
    }
}

/// The map that a list of entries stands for: each entry, in order, sets its key.
pub open spec fn fields_view(fs: Seq<(String, AttrValue)>) -> Map<Seq<char>, JsonView>
    decreases fs,
{
    if fs.len() == 0 {
        Map::empty()
    } else {
        fields_view(fs.drop_last()).insert(fs.last().0@, json_view(&fs.last().1))
    }
}

impl View for AttrValue {
    type V = JsonView;

    open spec fn view(&self) -> JsonView {
        json_view(self)
    }
}

pub open spec fn opt_json(o: Option<AttrValue>) -> Option<JsonView> {
    match o {
        Some(v) => Some(v@),
        None => None,
    }
}

pub open spec fn opt_text(o: Option<String>) -> Option<Seq<char>> {
    match o {
        Some(s) => Some(s@),
        None => None,
    }
}

pub open spec fn map_get(m: Map<Seq<char>, JsonView>, k: Seq<char>) -> Option<JsonView> {
    if m.dom().contains(k) {
        Some(m[k])
    } else {
        None
    }
}

/// A value read as a string: a string as it is, a number as JSON writes it.
pub open spec fn string_of(j: JsonView) -> Option<Seq<char>> {
    match j {
        JsonView::Str(s) => Some(s),
        JsonView::Int(i) => Some(decimal(i as int)),
        JsonView::UInt(u) => Some(decimal(u as int)),
        JsonView::Float(t) => Some(t),
        _ => None,
    }
}

/// A value read as an `i64`: a number that fits, or a string that parses as one.
pub open spec fn i64_of(j: JsonView) -> Option<i64> {
    match j {
        JsonView::Int(i) => Some(i),
        JsonView::UInt(u) => if u <= i64::MAX { Some(u as i64) } else { None },
        JsonView::Str(s) => spec_parse_i64(s),
        _ => None,
    }
}

/// A value read as a boolean: a boolean, or the string `true` or `false`.
pub open spec fn bool_of(j: JsonView) -> Option<bool> {
    match j {
        JsonView::Bool(b) => Some(b),
        JsonView::Str(s) => spec_parse_bool(s),
        _ => None,
    }
}

pub open spec fn and_then_string(o: Option<JsonView>) -> Option<Seq<char>> {
    match o {
        Some(j) => string_of(j),
        None => None,
    }
}

pub open spec fn and_then_i64(o: Option<JsonView>) -> Option<i64> {
    match o {
        Some(j) => i64_of(j),
        None => None,
    }
}

/// A value read as a count, a size or a duration: an `i64` that is not negative.
pub open spec fn and_then_count(o: Option<JsonView>) -> Option<i64> {
    match and_then_i64(o) {
        Some(n) => if n >= 0 { Some(n) } else { None },
        None => None,
    }
}

pub open spec fn and_then_bool(o: Option<JsonView>) -> Option<bool> {
    match o {
        Some(j) => bool_of(j),
        None => None,
    }
}

// ---------------------------------------------------------------------------
// Entry lists
// ---------------------------------------------------------------------------

pub proof fn lemma_fields_view_absent(fs: Seq<(String, AttrValue)>, k: Seq<char>)
    requires
        forall|j: int| 0 <= j < fs.len() ==> (#[trigger] fs[j]).0@ != k,
    ensures
        !fields_view(fs).dom().contains(k),
    decreases fs.len(),
{
    if fs.len() > 0 {
        assert(fs.last() == fs[fs.len() - 1]);
        lemma_fields_view_absent(fs.drop_last(), k);
    }
}

pub proof fn lemma_fields_view_last(fs: Seq<(String, AttrValue)>, i: int, k: Seq<char>)
    requires
        0 <= i < fs.len(),
        fs[i].0@ == k,
        forall|j: int| i < j < fs.len() ==> (#[trigger] fs[j]).0@ != k,
    ensures
        fields_view(fs).dom().contains(k),
        fields_view(fs)[k] == json_view(&fs[i].1),
    decreases fs.len(),
{
    if i < fs.len() - 1 {
        assert(fs.last() == fs[fs.len() - 1]);
        lemma_fields_view_last(fs.drop_last(), i, k);
    }
}

/// The value that the entries give a key: that of its last entry.
pub fn get_attr<'a>(attrs: &'a Vec<(String, AttrValue)>, key: &str) -> (r: Option<&'a AttrValue>)
    ensures
        match r {
            Some(v) => map_get(fields_view(attrs@), key@) == Some(v@),
            None => map_get(fields_view(attrs@), key@).is_none(),
        },
{
    let mut i = attrs.len();
    while i > 0
        invariant
            i <= attrs.len(),
            forall|j: int| i <= j < attrs@.len() ==> (#[trigger] attrs@[j]).0@ != key@,
        decreases i,
    {
        i = i - 1;
        if text_eq(attrs[i].0.as_str(), key) {
            proof {
                lemma_fields_view_last(attrs@, i as int, key@);
            }
            return Some(&attrs[i].1);
        }
    }
    proof {
        lemma_fields_view_absent(attrs@, key@);
    }
    None
}

/// A copy of a value, entry for entry.
pub fn copy_value(v: &AttrValue) -> (r: AttrValue)
    ensures
        r@ == v@,
    decreases v,
{
    match v {
        AttrValue::Null => AttrValue::Null,
        AttrValue::Bool(b) => AttrValue::Bool(*b),
        AttrValue::Int(i) => AttrValue::Int(*i),
        AttrValue::UInt(u) => AttrValue::UInt(*u),
        AttrValue::Float(t) => AttrValue::Float(t.clone()),
        AttrValue::Str(s) => AttrValue::Str(s.clone()),
        AttrValue::Array(a) => {
            let mut out: Vec<AttrValue> = Vec::new();
            let mut i: usize = 0;
            while i < a.len()
                invariant
                    i <= a.len(),
                    out@.len() == i,
                    v is Array,
                    v->Array_0 == *a,
                    forall|j: int| 0 <= j < i ==> (#[trigger] out@[j])@ == a@[j]@,
                decreases a.len() - i,
            {
                proof {
                    assert(decreases_to!(*v => v->Array_0));
                    assert(decreases_to!(*a => a@));
                    assert(decreases_to!(a@ => a@[i as int]));
                }
                let c = copy_value(&a[i]);
                out.push(c);
                i = i + 1;
            }
            let r = AttrValue::Array(out);
            assert(r@ == v@) by {
                if let JsonView::Array(x) = r@ {
                    if let JsonView::Array(y) = v@ {
                        assert(x =~= y);
                    }
                }
            }
            r
        },
        AttrValue::Object(fs) => {
            let mut out: Vec<(String, AttrValue)> = Vec::new();
            let mut i: usize = 0;
            while i < fs.len()
                invariant
                    i <= fs.len(),
                    v is Object,
                    v->Object_0 == *fs,
                    fields_view(out@) == fields_view(fs@.take(i as int)),
                decreases fs.len() - i,
            {
                proof {
                    assert(decreases_to!(*v => v->Object_0));
                    assert(decreases_to!(*fs => fs@));
                    assert(decreases_to!(fs@ => fs@[i as int]));
                    assert(decreases_to!(fs@[i as int] => fs@[i as int].1));
                }
                let c = copy_value(&fs[i].1);
                let k = fs[i].0.clone();
                let ghost before = out@;
                out.push((k, c));
                assert(out@.drop_last() == before);
                assert(fs@.take(i + 1).drop_last() =~= fs@.take(i as int));
                i = i + 1;
            }
            assert(fs@.take(fs@.len() as int) =~= fs@);
            AttrValue::Object(out)
        },
    }
}

// ---------------------------------------------------------------------------
// Reading values
// ---------------------------------------------------------------------------

/// A value read as a string: strings as they are, numbers in their JSON text.
pub fn value_to_string(value: &AttrValue) -> (r: Option<String>)
    ensures
        opt_text(r) == string_of(value@),
{
    match value {
        AttrValue::Str(s) => Some(s.clone()),
        AttrValue::Int(i) => Some(i64_to_decimal(*i)),
        AttrValue::UInt(u) => Some(u64_to_decimal(*u)),
        AttrValue::Float(t) => Some(t.clone()),
        _ => None,
    }
}

/// A value read as an `i64`: numbers that fit, and strings that parse as one.
pub fn value_to_i64(value: &AttrValue) -> (r: Option<i64>)
    ensures
        r == i64_of(value@),
{
    match value {
        AttrValue::Int(i) => Some(*i),
        AttrValue::UInt(u) => {
            if *u <= 9223372036854775807u64 {
                Some(*u as i64)
            } else {
                None
            }
        },
        AttrValue::Str(s) => parse_i64(s.as_str()),
        _ => None,
    }
}

/// A value read as a boolean: booleans, and the strings `true` and `false`.
pub fn value_to_bool(value: &AttrValue) -> (r: Option<bool>)
    ensures
        r == bool_of(value@),
{
    match value {
        AttrValue::Bool(b) => Some(*b),
        AttrValue::Str(s) => parse_bool(s.as_str()),
        _ => None,
    }
}

/// The attribute `key` read as a string.
pub fn string_attr(attributes: &Vec<(String, AttrValue)>, key: &str) -> (r: Option<String>)
    ensures
        opt_text(r) == and_then_string(map_get(fields_view(attributes@), key@)),
{
    match get_attr(attributes, key) {
        Some(v) => value_to_string(v),
        None => None,
    }
}

/// The attribute `key` read as an `i64`.
pub fn i64_attr(attributes: &Vec<(String, AttrValue)>, key: &str) -> (r: Option<i64>)
    ensures
        r == and_then_i64(map_get(fields_view(attributes@), key@)),
{
    match get_attr(attributes, key) {
        Some(v) => value_to_i64(v),
        None => None,
    }
}

/// The attribute `key` read as a boolean.
pub fn bool_attr(attributes: &Vec<(String, AttrValue)>, key: &str) -> (r: Option<bool>)
    ensures
        r == and_then_bool(map_get(fields_view(attributes@), key@)),
{
    match get_attr(attributes, key) {
        Some(v) => value_to_bool(v),
        None => None,
    }
}

/// The attribute `key` read as a count: an `i64` that is not negative.
pub fn count_attr(attributes: &Vec<(String, AttrValue)>, key: &str) -> (r: Option<i64>)
    ensures
        r == and_then_count(map_get(fields_view(attributes@), key@)),
{
    match i64_attr(attributes, key) {
        Some(n) => if n >= 0 { Some(n) } else { None },
        None => None,
    }
}

// ---------------------------------------------------------------------------
// JSON text
// ---------------------------------------------------------------------------

#[verifier::external_type_specification]
#[verifier::external_body]
pub struct ExJsonValue(serde_json::Value);

#[verifier::external_type_specification]
#[verifier::external_body]
pub struct ExJsonNumber(serde_json::Number);

/// The value that `serde_json::from_str::<serde_json::Value>` reads from `text`,
/// or `None` where it reports an error.
pub uninterp spec fn parsed_json(text: Seq<char>) -> Option<JsonView>;

/// Reads JSON text with `serde_json::from_str::<serde_json::Value>`. Claimed:
/// the value is that function's result on the text (`None` for its error),
/// converted entry for entry; nothing is claimed of which texts it accepts.
#[verifier::external_body]
pub fn parse_json(text: &str) -> (r: Option<AttrValue>)
    ensures
        opt_json(r) == parsed_json(text@),
{
    match serde_json::from_str::<serde_json::Value>(text) {
        Ok(value) => Some(value_from_json(value)),
        Err(_) => None,
    }
}

/// Converts a `serde_json::Value` variant for variant, arrays and objects
/// entry by entry. Nothing is claimed of the result here; `parse_json` states
/// what is relied on.
#[verifier::external_body]
fn value_from_json(value: serde_json::Value) -> AttrValue {
    match value {
        serde_json::Value::Null => AttrValue::Null,
        serde_json::Value::Bool(b) => AttrValue::Bool(b),
        serde_json::Value::Number(n) => number_from_json(n),
        serde_json::Value::String(s) => AttrValue::Str(s),
        serde_json::Value::Array(a) => AttrValue::Array(a.into_iter().map(value_from_json).collect()),
        serde_json::Value::Object(m) => AttrValue::Object(m.into_iter().map(|(k, v)| (k, value_from_json(v))).collect()),
    }
}

/// Converts a `serde_json::Number`: `Int` where `as_i64` gives a value, else
/// `UInt` where `as_u64` does, else `Float` with the number's `to_string` text.
/// Nothing is claimed of the result here; `parse_json` states what is relied on.
#[verifier::external_body]
fn number_from_json(n: serde_json::Number) -> AttrValue {
    match (n.as_i64(), n.as_u64()) {
        (Some(i), _) => AttrValue::Int(i),
        (None, Some(u)) => AttrValue::UInt(u),
        (None, None) => AttrValue::Float(n.to_string()),
    }
}

} // verus!
