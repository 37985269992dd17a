//! JSON values as plain data, and the reading of a JSON text.

use vstd::prelude::*;

verus! {

/// A JSON number: the integer that it is, where it is one that fits, and
/// the bit pattern of the IEEE 754 double nearest to it.
#[derive(Debug, Clone, Copy, PartialEq, Eq)]
pub struct JsonNumber {
    pub integer: Option<i64>,
    pub real: Option<u64>,
}

/// A JSON value. The members of an object keep the order in which the
/// reader gave them.
#[derive(Debug, PartialEq, Eq)]
pub enum Json {
    Null,
    Bool(bool),
    Number(JsonNumber),
    String(String),
    Array(Vec<Json>),
    Object(Vec<(String, Json)>),
}

/// View of a [`Json`]: the same tree, with texts in place of strings and
/// sequences in place of vectors.
pub enum JsonView {
    Null,
    Bool(bool),
    Number(JsonNumber),
    String(Seq<char>),
    Array(Seq<JsonView>),
    Object(Seq<(Seq<char>, JsonView)>),
}

impl View for Json {
    type V = JsonView;

    open spec fn view(&self) -> JsonView
        decreases self,
    {
        match self {
            Json::Null => JsonView::Null,
            Json::Bool(b) => JsonView::Bool(*b),
            Json::Number(n) => JsonView::Number(*n),
            Json::String(s) => JsonView::String(s@),
            Json::Array(items) => JsonView::Array(
                Seq::new(
                    items@.len(),
                    |i: int|
                        if 0 <= i < items@.len() {
                            items@[i]@
                        } else {
                            JsonView::Null
                        },
                ),
            ),
            Json::Object(members) => JsonView::Object(members_view(members@)),
        }
    }
}

/// The views of the members of an object, in order.
pub open spec fn members_view(members: Seq<(String, Json)>) -> Seq<(Seq<char>, JsonView)>
    decreases members,
{
    Seq::new(
        members.len(),
        |i: int|
            if 0 <= i < members.len() {
                (members[i].0@, members[i].1@)
            } else {
                (Seq::empty(), JsonView::Null)
            },
    )
}

#[verifier::external_type_specification]
#[verifier::external_body]
pub struct ExJsonValue(serde_json::Value);

/// The value that a text denotes as JSON, or none where the text is not
/// JSON.
pub uninterp spec fn json_of_text(text: Seq<char>) -> Option<JsonView>;

/// The view of an optional value.
pub open spec fn read_view(json: Option<Json>) -> Option<JsonView> {
    match json {
        Some(value) => Some(value@),
        None => None,
    }
}

/// Rebuilds a `serde_json::Value` as a [`Json`], variant by variant: a
/// number by what `Number::as_i64` and `Number::as_f64` give for it, the
/// members of an object in the order in which the value's map hands them
/// out. It is the second half of [`parse_json`], its only caller, and
/// nothing is claimed of its result on its own.
#[verifier::external_body]
fn json_of_value(value: serde_json::Value) -> Json {
    match value {
        serde_json::Value::Null => Json::Null,
        serde_json::Value::Bool(b) => Json::Bool(b),
        serde_json::Value::Number(n) => Json::Number(
            JsonNumber { integer: n.as_i64(), real: n.as_f64().map(|x| x.to_bits()) },
        ),
        serde_json::Value::String(s) => Json::String(s),
        serde_json::Value::Array(items) => Json::Array(
            items.into_iter().map(json_of_value).collect(),
        ),
        serde_json::Value::Object(members) => Json::Object(
            members.into_iter().map(|(k, v)| (k, json_of_value(v))).collect(),
        ),
    }
}

/// Reads a text with `serde_json::from_str` as a `serde_json::Value`. The
/// claim is that the outcome depends on the text alone: equal texts give
/// values with equal views, and a text that the reader refuses gives none.
#[verifier::external_body]
pub(crate) fn parse_json(text: &str) -> (r: Option<Json>)
    ensures
        read_view(r) == json_of_text(text@),
{
    match serde_json::from_str::<serde_json::Value>(text) {
        Ok(value) => Some(json_of_value(value)),
        Err(_) => None,
    }
}

} // verus!
