//! JSON values as the configuration reader sees them, and the parse of a
//! configuration text.

use vstd::prelude::*;

verus! {

/// A JSON value. Numbers are kept without their value: nothing reads them.
pub enum JsonValue {
    Null,
    Bool(bool),
    Number,
    Text(String),
    Array(Vec<JsonValue>),
    /// The members of an object, in the order the parser yields them.
    Object(Vec<(String, JsonValue)>),
}

/// The plain view of a JSON value.
pub enum JsonView {
    Null,
    Bool(bool),
    Number,
    Text(Seq<char>),
    Array(Seq<JsonView>),
    Object(Seq<(Seq<char>, JsonView)>),
}

pub open spec fn member_view(m: (String, JsonValue)) -> (Seq<char>, JsonView)
    decreases m, 0nat,
{
    (m.0@, json_view(m.1))
}

pub open spec fn members_view(ms: Seq<(String, JsonValue)>) -> Seq<(Seq<char>, JsonView)>
    decreases ms, 1nat,
{
    Seq::new(
        ms.len(),
        |i: int|
            if 0 <= i < ms.len() {
                member_view(ms[i])
            } else {
                (Seq::empty(), JsonView::Null)
            },
    )
}

pub open spec fn items_view(vs: Seq<JsonValue>) -> Seq<JsonView>
    decreases vs, 1nat,
{
    Seq::new(
        vs.len(),
        |i: int|
            if 0 <= i < vs.len() {
                json_view(vs[i])
            } else {
                JsonView::Null
            },
    )
}

pub open spec fn json_view(v: JsonValue) -> JsonView
    decreases v, 2nat,
{
    match v {
        JsonValue::Null => JsonView::Null,
        JsonValue::Bool(b) => JsonView::Bool(b),
        JsonValue::Number => JsonView::Number,
        JsonValue::Text(s) => JsonView::Text(s@),
        JsonValue::Array(vs) => JsonView::Array(items_view(vs@)),
        JsonValue::Object(ms) => JsonView::Object(members_view(ms@)),
    }
}

/// No two members of an object have the same key.
pub open spec fn member_keys_distinct(ms: Seq<(Seq<char>, JsonView)>) -> bool {
    forall|a: int, b: int| 0 <= a < b < ms.len() ==> ms[a].0 != ms[b].0
}

/// No object anywhere in the value has two members with the same key.
pub open spec fn json_keys_distinct(j: JsonView) -> bool
    decreases j,
{
    match j {
        JsonView::Object(ms) => member_keys_distinct(ms) && forall|i: int|
            0 <= i < ms.len() ==> json_keys_distinct(#[trigger] ms[i].1),
        JsonView::Array(vs) => forall|i: int| 0 <= i < vs.len() ==> json_keys_distinct(#[trigger] vs[i]),
        _ => true,
    }
}

/// The plain view of a parse result.
pub open spec fn parsed_view(r: Option<JsonValue>) -> Option<JsonView> {
    match r {
        Some(v) => Some(json_view(v)),
        None => None,
    }
}

#[verifier::external_type_specification]
#[verifier::external_body]
pub struct ExJsonValue(serde_json::Value);

/// The JSON value that `serde_json::from_str` parses from a text, `None`
/// where the text is not JSON.
pub uninterp spec fn parsed_json(text: Seq<char>) -> Option<JsonView>;

/// The library's form of a `serde_json::Value`, variant for variant; the
/// members of an object keep the order in which `serde_json::Map` yields
/// them. Used by `parse_json` alone.
#[verifier::external_body]
fn json_value_of(v: serde_json::Value) -> JsonValue {
    match v {
        serde_json::Value::Null => JsonValue::Null,
        serde_json::Value::Bool(b) => JsonValue::Bool(b),
        serde_json::Value::Number(_) => JsonValue::Number,
        serde_json::Value::String(s) => JsonValue::Text(s),
        serde_json::Value::Array(a) => JsonValue::Array(a.into_iter().map(json_value_of).collect()),
        serde_json::Value::Object(m) => JsonValue::Object(
            m.into_iter().map(|(k, v)| (k, json_value_of(v))).collect(),
        ),
    }
}

/// Calls `serde_json::from_str` for a `serde_json::Value` and turns the value
/// into a `JsonValue`. Trusted: the result is the named parse of the text
/// (the same text gives the same value), `None` exactly where serde_json
/// reports an error, and no object in it has a key twice, as each object of
/// a `serde_json::Value` is a `serde_json::Map`. What the parse accepts and
/// yields beyond that is not stated.
#[verifier::external_body]
pub fn parse_json(text: &str) -> (r: Option<JsonValue>)
    ensures
        parsed_view(r) == parsed_json(text@),
        r matches Some(v) ==> json_keys_distinct(json_view(v)),
{
    match serde_json::from_str::<serde_json::Value>(text) {
        Ok(v) => Some(json_value_of(v)),
        Err(_) => None,
    }
}

/// Position of the first member named `k`.
pub open spec fn member_position(ms: Seq<(Seq<char>, JsonView)>, k: Seq<char>) -> Option<int>
    decreases ms.len(),
{
    if ms.len() == 0 {
        None
    } else if ms[0].0 == k {
        Some(0)
    } else {
        match member_position(ms.drop_first(), k) {
            Some(i) => Some(i + 1),
            None => None,
        }
    }
}

/// The member `k` of an object, as indexing a `serde_json::Value` with a key
/// gives it: `None` (null) for a missing member or a value that is not an
/// object.
pub open spec fn json_field(j: JsonView, k: Seq<char>) -> Option<JsonView> {
    match j {
        JsonView::Object(ms) => match member_position(ms, k) {
            Some(i) => Some(ms[i].1),
            None => None,
        },
        _ => None,
    }
}

pub proof fn lemma_member_position(ms: Seq<(Seq<char>, JsonView)>, k: Seq<char>)
    ensures
        member_position(ms, k) matches Some(i) ==> 0 <= i < ms.len() && ms[i].0 == k && forall|j: int|
            0 <= j < i ==> ms[j].0 != k,
        member_position(ms, k) is None ==> forall|j: int| 0 <= j < ms.len() ==> ms[j].0 != k,
    decreases ms.len(),
{
    if ms.len() > 0 {
        let rest = ms.drop_first();
        lemma_member_position(rest, k);
        assert forall|j: int| 0 <= j < rest.len() implies rest[j] == ms[j + 1] by {}
        assert forall|j: int| 1 <= j < ms.len() implies ms[j] == rest[j - 1] by {}
    }
}

/// The member `key` of a value, when the value is an object that has it.
pub fn get_field<'a>(v: &'a JsonValue, key: &str) -> (r: Option<&'a JsonValue>)
    ensures
        r matches Some(f) ==> json_field(json_view(*v), key@) == Some(json_view(*f)),
        r is None ==> json_field(json_view(*v), key@) is None,
{
    match v {
        JsonValue::Object(ms) => {
            let ghost mv = members_view(ms@);
            proof {
                lemma_member_position(mv, key@);
            }
            let mut i: usize = 0;
            assert(json_view(*v) == JsonView::Object(mv));
            while i < ms.len()
                invariant
                    mv == members_view(ms@),
                    json_view(*v) == JsonView::Object(mv),
                    mv.len() == ms@.len(),
                    i <= ms@.len(),
                    forall|j: int| 0 <= j < i ==> mv[j].0 != key@,
                    member_position(mv, key@) matches Some(p) ==> 0 <= p < mv.len() && mv[p].0
                        == key@ && forall|q: int| 0 <= q < p ==> mv[q].0 != key@,
                    member_position(mv, key@) is None ==> forall|q: int|
                        0 <= q < mv.len() ==> mv[q].0 != key@,
                decreases ms.len() - i,
            {
                assert(mv[i as int] == member_view(ms@[i as int]));
                if crate::text::str_eq(ms[i].0.as_str(), key) {
                    proof {
                        match member_position(mv, key@) {
                            Some(p) => {
                                if p < i {
                                    assert(mv[p].0 != key@);
                                } else if p > i {
                                    assert(mv[i as int].0 != key@);
                                }
                            },
                            None => {
                                assert(mv[i as int].0 != key@);
                            },
                        }
                    }
                    return Some(&ms[i].1);
                }
                i = i + 1;
            }
            None
        },
        _ => None,
    }
}

} // verus!
