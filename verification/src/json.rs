//! The value tree that the parser builds.

use vstd::prelude::*;

verus! {

/// A JSON value. An object keeps its members as they were written: in their
/// order, and with every member of a name that occurs more than once. A
/// number is the text it was written with.
#[derive(Debug, PartialEq, Eq)]
pub enum Json {
    Object(Vec<Member>),
    Array(Vec<Json>),
    String(String),
    Number(String),
    Bool(bool),
    Null,
}

/// A member of an object: a name and the value that stands under it.
#[derive(Debug, PartialEq, Eq)]
pub struct Member {
    pub name: String,
    pub value: Json,
}

/// A member of an object as a mathematical value: the view of a `Member`.
pub ghost struct MemberValue {
    pub name: Seq<char>,
    pub value: JsonValue,
}

/// A JSON value as a mathematical value: the view of a `Json`.
pub ghost enum JsonValue {
    Object(Seq<MemberValue>),
    Array(Seq<JsonValue>),
    String(Seq<char>),
    Number(Seq<char>),
    Bool(bool),
    Null,
}

impl View for Json {
    type V = JsonValue;

    open spec fn view(&self) -> JsonValue
        decreases self,
    {
        match self {
            Json::Object(members) => JsonValue::Object(
                Seq::new(
                    members@.len(),
                    |i: int|
                        if 0 <= i < members@.len() {
                            MemberValue {
                                name: members@[i].name@,
                                value: members@[i].value.view(),
                            }
                        } else {
                            MemberValue { name: Seq::empty(), value: JsonValue::Null }
                        },
                ),
            ),
            Json::Array(items) => JsonValue::Array(
                Seq::new(
                    items@.len(),
                    |i: int|
                        if 0 <= i < items@.len() {
                            items@[i].view()
                        } else {
                            JsonValue::Null
                        },
                ),
            ),
            Json::String(s) => JsonValue::String(s@),
            Json::Number(s) => JsonValue::Number(s@),
            Json::Bool(b) => JsonValue::Bool(*b),
            Json::Null => JsonValue::Null,
        }
    }
}

impl View for Member {
    type V = MemberValue;

    open spec fn view(&self) -> MemberValue {
        MemberValue { name: self.name@, value: self.value@ }
    }
}

/// The views of the members of an object, in order.
pub open spec fn members_view(members: Seq<Member>) -> Seq<MemberValue> {
    Seq::new(members.len(), |i: int| members[i]@)
}

/// The views of the items of an array, in order.
pub open spec fn items_view(items: Seq<Json>) -> Seq<JsonValue> {
    Seq::new(items.len(), |i: int| items[i]@)
}

/// The view of an object is made of the views of its members.
pub proof fn lemma_object_view(members: Vec<Member>)
    ensures
        Json::Object(members)@ == JsonValue::Object(members_view(members@)),
{
    assert(Json::Object(members)@->Object_0 =~= members_view(members@));
}

/// The view of an array is made of the views of its items.
pub proof fn lemma_array_view(items: Vec<Json>)
    ensures
        Json::Array(items)@ == JsonValue::Array(items_view(items@)),
{
    assert(Json::Array(items)@->Array_0 =~= items_view(items@));
}

} // verus!
