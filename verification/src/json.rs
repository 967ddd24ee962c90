//! A JSON value as the library exchanges it, with its mathematical model.

use vstd::prelude::*;
use crate::model::views;

verus! {

/// A member of a JSON object as a mathematical value.
pub struct MemberModel {
    pub key: Seq<u8>,
    pub value: JsonModel,
}

/// The model of a JSON value: strings are byte sequences, objects keep the
/// order of their members.
pub enum JsonModel {
    Null,
    Bool(bool),
    Number(Seq<u8>),
    Text(Seq<u8>),
    Array(Seq<JsonModel>),
    Object(Seq<MemberModel>),
}

/// A member of a JSON object.
#[derive(Debug, PartialEq, Eq)]
pub struct Member {
    pub key: Vec<u8>,
    pub value: JsonValue,
}

/// A JSON value. A number keeps its literal text.
#[derive(Debug, PartialEq, Eq)]
pub enum JsonValue {
    Null,
    Bool(bool),
    Number(Vec<u8>),
    Text(Vec<u8>),
    Array(Vec<JsonValue>),
    Object(Vec<Member>),
}

impl View for JsonValue {
    type V = JsonModel;

    open spec fn view(&self) -> JsonModel
        decreases self,
    {
        match self {
            JsonValue::Null => JsonModel::Null,
            JsonValue::Bool(b) => JsonModel::Bool(*b),
            JsonValue::Number(n) => JsonModel::Number(n@),
            JsonValue::Text(t) => JsonModel::Text(t@),
            JsonValue::Array(items) => JsonModel::Array(
                Seq::new(
                    items@.len(),
                    |i: int|
                        if 0 <= i < items@.len() {
                            items@[i].view()
                        } else {
                            JsonModel::Null
                        },
                ),
            ),
            JsonValue::Object(members) => JsonModel::Object(
                Seq::new(
                    members@.len(),
                    |i: int|
                        if 0 <= i < members@.len() {
                            MemberModel { key: members@[i].key@, value: members@[i].value.view() }
                        } else {
                            MemberModel { key: Seq::empty(), value: JsonModel::Null }
                        },
                ),
            ),
        }
    }
}

impl View for Member {
    type V = MemberModel;

    open spec fn view(&self) -> MemberModel {
        MemberModel { key: self.key@, value: self.value@ }
    }
}

impl JsonValue {
    /// A JSON string.
    pub fn text(s: Vec<u8>) -> (r: JsonValue)
        ensures
            r@ == JsonModel::Text(s@),
    {
        JsonValue::Text(s)
    }

    /// A JSON array of the given items.
    pub fn array(items: Vec<JsonValue>) -> (r: JsonValue)
        ensures
            r@ == JsonModel::Array(views(items@)),
    {
        let r = JsonValue::Array(items);
        proof {
            assert(r@->Array_0 =~= views(items@));
        }
        r
    }

    /// A JSON object of the given members, in their order.
    pub fn object(members: Vec<Member>) -> (r: JsonValue)
        ensures
            r@ == JsonModel::Object(views(members@)),
    {
        let r = JsonValue::Object(members);
        proof {
            assert(r@->Object_0 =~= views(members@));
        }
        r
    }

    /// The items of an array; of any other value, `None`.
    pub fn items(&self) -> (r: Option<&Vec<JsonValue>>)
        ensures
            match r {
                Some(items) => self@ == JsonModel::Array(views(items@)),
                None => !(self@ is Array),
            },
    {
        match self {
            JsonValue::Array(items) => {
                proof {
                    assert(self@->Array_0 =~= views(items@));
                }
                Some(items)
            },
            _ => None,
        }
    }

    /// The members of an object; of any other value, `None`.
    pub fn members(&self) -> (r: Option<&Vec<Member>>)
        ensures
            match r {
                Some(members) => self@ == JsonModel::Object(views(members@)),
                None => !(self@ is Object),
            },
    {
        match self {
            JsonValue::Object(members) => {
                proof {
                    assert(self@->Object_0 =~= views(members@));
                }
                Some(members)
            },
            _ => None,
        }
    }

    /// The bytes of a string; of any other value, `None`.
    pub fn as_text(&self) -> (r: Option<&Vec<u8>>)
        ensures
            match r {
                Some(s) => self@ == JsonModel::Text(s@),
                None => !(self@ is Text),
            },
    {
        match self {
            JsonValue::Text(s) => Some(s),
            _ => None,
        }
    }
}

} // verus!
