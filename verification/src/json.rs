//! JSON values that the library writes (positions and boundaries), and
//! their serialization.

use vstd::prelude::*;

verus! {

/// A JSON value: null, an integer, a string, an array, or an object whose
/// members are given by name.
#[derive(Debug)]
pub enum JsonValue {
    Null,
    Int(i64),
    UInt(u64),
    Str(String),
    Array(Vec<JsonValue>),
    Object(Vec<(String, JsonValue)>),
}

/// A JSON value as plain values.
pub enum JsonView {
    Null,
    Int(int),
    Str(Seq<char>),
    Array(Seq<JsonView>),
    Object(Seq<(Seq<char>, JsonView)>),
}

/// The plain view of a JSON value.
pub open spec fn json_view(v: JsonValue) -> JsonView
    decreases v,
{
    match v {
        JsonValue::Null => JsonView::Null,
        JsonValue::Int(i) => JsonView::Int(i as int),
        JsonValue::UInt(u) => JsonView::Int(u as int),
        JsonValue::Str(s) => JsonView::Str(s@),
        JsonValue::Array(xs) => {
            proof {
                assert(decreases_to!(v => xs@));
            }
            JsonView::Array(json_views(xs@))
        },
        JsonValue::Object(ms) => {
            proof {
                assert(decreases_to!(v => ms@));
            }
            JsonView::Object(json_member_views(ms@))
        },
    }
}

/// The plain views of a sequence of JSON values.
pub open spec fn json_views(s: Seq<JsonValue>) -> Seq<JsonView>
    decreases s,
{
    if s.len() == 0 {
        Seq::empty()
    } else {
        proof {
            assert(decreases_to!(s => s.subrange(0, s.len() - 1)));
            assert(decreases_to!(s => s[s.len() - 1]));
        }
        json_views(s.subrange(0, s.len() - 1)).push(json_view(s[s.len() - 1]))
    }
}

/// The plain views of the members of an object.
pub open spec fn json_member_views(s: Seq<(String, JsonValue)>) -> Seq<(Seq<char>, JsonView)>
    decreases s,
{
    if s.len() == 0 {
        Seq::empty()
    } else {
        proof {
            assert(decreases_to!(s => s.subrange(0, s.len() - 1)));
            assert(decreases_to!(s => s[s.len() - 1]));
            assert(decreases_to!(s[s.len() - 1] => s[s.len() - 1].1));
        }
        json_member_views(s.subrange(0, s.len() - 1)).push(
            (s[s.len() - 1].0@, json_view(s[s.len() - 1].1)),
        )
    }
}

/// Appending a value appends its view.
pub proof fn lemma_json_views_push(s: Seq<JsonValue>, x: JsonValue)
    ensures
        json_views(s.push(x)) == json_views(s).push(json_view(x)),
{
    assert(s.push(x).subrange(0, s.len() as int) =~= s);
}

/// What `serde_json::to_vec` writes for a JSON value: compact text, with
/// the members of each object in the order of their names.
pub uninterp spec fn json_bytes(v: JsonView) -> Seq<u8>;

/// `serde_json::Value`, carried through opaque.
#[verifier::external_type_specification]
#[verifier::external_body]
pub struct ExSerdeJsonValue(serde_json::Value);

/// Converts a JSON value into `serde_json::Value` node for node: null to
/// null, integers to numbers, strings to strings, arrays to arrays, objects
/// to maps (a later member of the same name replaces an earlier one).
#[verifier::external_body]
fn serde_value(v: &JsonValue) -> serde_json::Value {
    match v {
        JsonValue::Null => serde_json::Value::Null,
        JsonValue::Int(i) => serde_json::Value::from(*i),
        JsonValue::UInt(u) => serde_json::Value::from(*u),
        JsonValue::Str(s) => serde_json::Value::from(s.as_str()),
        JsonValue::Array(xs) => serde_json::Value::Array(xs.iter().map(serde_value).collect()),
        JsonValue::Object(ms) => serde_json::Value::Object(
            ms.iter().map(|(k, x)| (k.clone(), serde_value(x))).collect(),
        ),
    }
}

/// `serde_json::to_vec` of a JSON value (a failure gives the empty vector,
/// as `unwrap_or_default` does); its bytes are named as a function of the
/// value alone.
#[verifier::external_body]
pub(crate) fn json_to_vec(v: &JsonValue) -> (r: Vec<u8>)
    ensures
        r@ == json_bytes(json_view(*v)),
{
    serde_json::to_vec(&serde_value(v)).unwrap_or_default()
}

/// A JSON string value.
pub(crate) fn json_str(s: &str) -> (r: JsonValue)
    ensures
        json_view(r) == JsonView::Str(s@),
{
    JsonValue::Str(String::from_str(s))
}

} // verus!
