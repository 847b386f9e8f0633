//! Trees: values without comments and positions.

use vstd::prelude::*;

verus! {

/// A value of the format, without comments and positions.
#[derive(Debug, PartialEq, Eq)]
pub enum Json {
    Int(u64),
    Bool(bool),
    String(String),
    Null,
    Array(Vec<Json>),
    /// The members of an object in the order of the input. A key may occur
    /// more than once.
    Object(Vec<(String, Json)>),
}

/// What a value is, to the contracts.
pub ghost enum JsonValue {
    Int(u64),
    Bool(bool),
    String(Seq<char>),
    Null,
    Array(Seq<JsonValue>),
    Object(Seq<(Seq<char>, JsonValue)>),
}

/// The value that a tree stands for.
pub open spec fn value_of(json: Json) -> JsonValue
    decreases json,
{
    match json {
        Json::Int(i) => JsonValue::Int(i),
        Json::Bool(b) => JsonValue::Bool(b),
        Json::String(s) => JsonValue::String(s@),
        Json::Null => JsonValue::Null,
        Json::Array(elements) => JsonValue::Array(
            Seq::new(
                elements@.len(),
                |i: int|
                    if 0 <= i < elements@.len() {
                        value_of(elements[i])
                    } else {
                        JsonValue::Null
                    },
            ),
        ),
        Json::Object(members) => JsonValue::Object(
            Seq::new(
                members@.len(),
                |i: int|
                    if 0 <= i < members@.len() {
                        (members[i].0@, value_of(members[i].1))
                    } else {
                        (Seq::empty(), JsonValue::Null)
                    },
            ),
        ),
    }
}

impl View for Json {
    type V = JsonValue;

    open spec fn view(&self) -> JsonValue {
        value_of(*self)
    }
}

/// The values that `elements` stand for, in order.
pub open spec fn values_of(elements: Seq<Json>) -> Seq<JsonValue> {
    Seq::new(elements.len(), |i: int| elements[i]@)
}

/// The members that `members` stand for, in order.
pub open spec fn members_of(members: Seq<(String, Json)>) -> Seq<(Seq<char>, JsonValue)> {
    Seq::new(members.len(), |i: int| (members[i].0@, members[i].1@))
}

/// An array stands for the values of its elements, an object for its
/// members.
pub proof fn lemma_view_of_containers(json: &Json)
    ensures
        json matches Json::Array(elements) ==> json@ == JsonValue::Array(values_of(elements@)),
        json matches Json::Object(members) ==> json@ == JsonValue::Object(members_of(members@)),
{
    match json {
        Json::Array(elements) => {
            assert(json@ is Array);
            assert(json@->Array_0.len() == elements@.len());
            assert forall|i: int| 0 <= i < elements@.len() implies json@->Array_0[i] == values_of(
                elements@,
            )[i] by {
                assert(json@->Array_0[i] == elements[i]@);
            }
            assert(json@->Array_0 =~= values_of(elements@));
        },
        Json::Object(members) => {
            assert(json@ is Object);
            assert(json@->Object_0.len() == members@.len());
            assert forall|i: int| 0 <= i < members@.len() implies json@->Object_0[i] == members_of(
                members@,
            )[i] by {
                assert(json@->Object_0[i] == (members[i].0@, members[i].1@));
            }
            assert(json@->Object_0 =~= members_of(members@));
        },
        _ => {},
    }
}

impl Json {
    /// The text of a string value.
    pub fn into_string(self) -> (text: String)
        requires
            self is String,
        ensures
            text@ == self@->String_0,
    {
        match self {
            Json::String(text) => text,
            _ => String::new(),
        }
    }
}

} // verus!
