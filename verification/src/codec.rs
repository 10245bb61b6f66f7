//! The boundary to the outside JSON codec that reads a document from
//! text.  The codec's values are opaque here: each node is taken apart
//! one level at a time and rebuilt as a [`JsonValue`] tree; nothing is
//! assumed about the result of parsing.

use vstd::prelude::*;

verus! {

#[verifier::external_type_specification]
#[verifier::external_body]
pub struct ExRawValue(serde_json::Value);

/// Relies on serde_json::from_str: reads JSON text into the codec's
/// value tree; nothing is assumed of the result.
#[verifier::external_body]
pub(crate) fn parse_raw(text: &str) -> (r: Option<serde_json::Value>) {
    serde_json::from_str::<serde_json::Value>(text).ok()
}

/// One level of a codec value, its children still codec values.
pub(crate) enum Shell {
    Null,
    Bool(bool),
    Num(String),
    Text(String),
    Arr(Vec<serde_json::Value>),
    Obj(Vec<(String, serde_json::Value)>),
}

/// Relies on serde_json::Value: tells its variants apart and hands the
/// fields over, a number as its canonical text through serde_json's
/// own rendering.
#[verifier::external_body]
fn shell_of(v: serde_json::Value) -> (r: Shell) {
    match v {
        serde_json::Value::Null => Shell::Null,
        serde_json::Value::Bool(b) => Shell::Bool(b),
        serde_json::Value::Number(n) => Shell::Num(n.to_string()),
        serde_json::Value::String(s) => Shell::Text(s),
        serde_json::Value::Array(a) => Shell::Arr(a),
        serde_json::Value::Object(m) => Shell::Obj(m.into_iter().collect()),
    }
}

/// Rebuilds a codec value as a `JsonValue` tree, one level at a time.
/// Nesting deeper than `fuel` levels is read as null; callers pass a
/// depth no real document reaches.
pub(crate) fn convert(v: serde_json::Value, fuel: u64) -> crate::value::JsonValue
    decreases fuel,
{
    if fuel == 0 {
        return crate::value::JsonValue::Null;
    }
    match shell_of(v) {
        Shell::Null => crate::value::JsonValue::Null,
        Shell::Bool(b) => crate::value::JsonValue::Bool(b),
        Shell::Num(s) => crate::value::JsonValue::Num(s),
        Shell::Text(s) => crate::value::JsonValue::Text(s),
        Shell::Arr(raw_items) => {
            let mut raw_items = raw_items;
            let mut items: Vec<crate::value::JsonValue> = Vec::new();
            while raw_items.len() > 0
                invariant
                    fuel >= 1,
                decreases raw_items@.len(),
            {
                let child = raw_items.remove(0);
                items.push(convert(child, fuel - 1));
            }
            crate::value::JsonValue::Arr(items)
        },
        Shell::Obj(raw_entries) => {
            let mut raw_entries = raw_entries;
            let mut entries: Vec<(String, crate::value::JsonValue)> = Vec::new();
            while raw_entries.len() > 0
                invariant
                    fuel >= 1,
                decreases raw_entries@.len(),
            {
                let pair = raw_entries.remove(0);
                entries.push((pair.0, convert(pair.1, fuel - 1)));
            }
            crate::value::JsonValue::Obj(entries)
        },
    }
}

} // verus!
