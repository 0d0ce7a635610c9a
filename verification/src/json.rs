//! JSON values.

use crate::text::same_text;
use vstd::prelude::*;

verus! {

/// A JSON value. Numbers that are no 64-bit integers are kept only as being
/// numbers.
pub enum Json {
    Null,
    Bool(bool),
    Int(i64),
    /// An integer that is too large to have a sign.
    Unsigned(u64),
    OtherNumber,
    Text(String),
    List(Vec<Json>),
    Object(Vec<Field>),
}

/// A field of an object.
pub struct Field {
    pub name: String,
    pub value: Json,
}

/// The first of the fields, from `i` on, with the given name.
pub open spec fn field_at(fields: Seq<Field>, name: Seq<char>, i: int) -> Option<Json>
    decreases fields.len() - i,
{
    if i >= fields.len() {
        None
    } else if fields[i].name@ == name {
        Some(fields[i].value)
    } else {
        field_at(fields, name, i + 1)
    }
}

/// The field of an object; other values have none.
pub open spec fn field(j: Json, name: Seq<char>) -> Option<Json> {
    match j {
        Json::Object(fields) => field_at(fields@, name, 0),
        _ => None,
    }
}

/// The signed integer that a value is.
pub open spec fn int_of(j: Json) -> Option<i64> {
    match j {
        Json::Int(n) => Some(n),
        _ => None,
    }
}

/// The text that a value is.
pub open spec fn text_of(j: Json) -> Option<Seq<char>> {
    match j {
        Json::Text(s) => Some(s@),
        _ => None,
    }
}

/// The items of a list.
pub open spec fn list_of(j: Json) -> Option<Seq<Json>> {
    match j {
        Json::List(l) => Some(l@),
        _ => None,
    }
}

/// The integer in a field.
pub open spec fn int_field(j: Json, name: Seq<char>) -> Option<i64> {
    match field(j, name) {
        Some(v) => int_of(v),
        None => None,
    }
}

/// The text in a field.
pub open spec fn text_field(j: Json, name: Seq<char>) -> Option<Seq<char>> {
    match field(j, name) {
        Some(v) => text_of(v),
        None => None,
    }
}

impl Json {
    /// The field of an object.
    pub fn get(&self, name: &str) -> (r: Option<&Json>)
        ensures
            match r {
                Some(v) => field(*self, name@) == Some(*v),
                None => field(*self, name@) is None,
            },
    {
        match self {
            Json::Object(fields) => {
                let mut i: usize = 0;
                while i < fields.len()
                    invariant
                        i <= fields@.len(),
                        field_at(fields@, name@, 0) == field_at(fields@, name@, i as int),
                        *self == Json::Object(*fields),
                    decreases fields@.len() - i,
                {
                    if same_text(fields[i].name.as_str(), name) {
                        return Some(&fields[i].value);
                    }
                    i = i + 1;
                }
                None
            },
            _ => None,
        }
    }

    pub fn as_i64(&self) -> (r: Option<i64>)
        ensures
            r == int_of(*self),
    {
        match self {
            Json::Int(n) => Some(*n),
            _ => None,
        }
    }

    pub fn as_str(&self) -> (r: Option<&str>)
        ensures
            match r {
                Some(s) => text_of(*self) == Some(s@),
                None => text_of(*self) is None,
            },
    {
        match self {
            Json::Text(s) => Some(s.as_str()),
            _ => None,
        }
    }

    pub fn as_array(&self) -> (r: Option<&Vec<Json>>)
        ensures
            match r {
                Some(l) => list_of(*self) == Some(l@),
                None => list_of(*self) is None,
            },
    {
        match self {
            Json::List(l) => Some(l),
            _ => None,
        }
    }

    pub fn as_object(&self) -> (r: Option<&Vec<Field>>)
        ensures
            match r {
                Some(f) => *self == Json::Object(*f),
                None => !(*self is Object),
            },
    {
        match self {
            Json::Object(f) => Some(f),
            _ => None,
        }
    }

    pub fn is_null(&self) -> (r: bool)
        ensures
            r == (*self is Null),
    {
        match self {
            Json::Null => true,
            _ => false,
        }
    }

    pub fn int_field(&self, name: &str) -> (r: Option<i64>)
        ensures
            r == int_field(*self, name@),
    {
        match self.get(name) {
            Some(v) => v.as_i64(),
            None => None,
        }
    }

    pub fn text_field(&self, name: &str) -> (r: Option<&str>)
        ensures
            match r {
                Some(s) => text_field(*self, name@) == Some(s@),
                None => text_field(*self, name@) is None,
            },
    {
        match self.get(name) {
            Some(v) => v.as_str(),
            None => None,
        }
    }
}

/// The field of an object is the first of the name; there is none just where no
/// field has the name.
pub proof fn law_field(fields: Vec<Field>, name: Seq<char>)
    ensures
        match field(Json::Object(fields), name) {
            Some(v) => exists|i: int|
                0 <= i < fields@.len() && (#[trigger] fields@[i]).name@ == name && fields@[i].value
                    == v && forall|j: int| 0 <= j < i ==> (#[trigger] fields@[j]).name@ != name,
            None => forall|i: int| 0 <= i < fields@.len() ==> (#[trigger] fields@[i]).name@ != name,
        },
{
    lemma_field_from(fields@, name, 0);
}

proof fn lemma_field_from(fields: Seq<Field>, name: Seq<char>, from: int)
    requires
        0 <= from <= fields.len(),
    ensures
        match field_at(fields, name, from) {
            Some(v) => exists|i: int|
                from <= i < fields.len() && (#[trigger] fields[i]).name@ == name && fields[i].value
                    == v && forall|j: int| from <= j < i ==> (#[trigger] fields[j]).name@ != name,
            None => forall|i: int|
                from <= i < fields.len() ==> (#[trigger] fields[i]).name@ != name,
        },
    decreases fields.len() - from,
{
    if from < fields.len() {
        lemma_field_from(fields, name, from + 1);
    }
}

} // verus!
