//! JSON values.

use crate::strings::same_text;
use vstd::prelude::*;
use vstd::string::*;

verus! {

/// A JSON value.
pub enum Json {
    Null,
    Bool(bool),
    /// A number that is an unsigned integer of 64 bits.
    Unsigned(u64),
    /// Any other number, as it is written.
    Number(String),
    Text(String),
    Array(Vec<Json>),
    /// Keys and values, in the order in which they are written.
    Object(Vec<(String, Json)>),
}

/// The first value of a key from the `i`-th member on.
pub open spec fn member_from(members: Seq<(String, Json)>, key: Seq<char>, i: int) -> Option<Json>
    decreases members.len() - i,
{
    if i >= members.len() {
        None
    } else if members[i].0@ == key {
        Some(members[i].1)
    } else {
        member_from(members, key, i + 1)
    }
}

/// The value of a key, where the value is an object that has it.
pub open spec fn member(j: Json, key: Seq<char>) -> Option<Json> {
    match j {
        Json::Object(members) => member_from(members@, key, 0),
        _ => None,
    }
}

/// The text of a key, where it is a text.
pub open spec fn text_member(j: Json, key: Seq<char>) -> Option<Seq<char>> {
    match member(j, key) {
        Some(Json::Text(s)) => Some(s@),
        _ => None,
    }
}

/// The number of a key, where it is an unsigned integer.
pub open spec fn number_member(j: Json, key: Seq<char>) -> Option<u64> {
    match member(j, key) {
        Some(Json::Unsigned(v)) => Some(v),
        _ => None,
    }
}

impl Json {
    /// The value of a key; the first, where an object has several.
    pub fn get(&self, key: &str) -> (r: Option<&Json>)
        ensures
            match r {
                Some(v) => member(*self, key@) == Some(*v),
                None => member(*self, key@) is None,
            },
    {
        match self {
            Json::Object(members) => {
                let mut i: usize = 0;
                while i < members.len()
                    invariant
                        i <= members@.len(),
                        *self == Json::Object(*members),
                        member_from(members@, key@, 0) == member_from(members@, key@, i as int),
                    decreases members@.len() - i,
                {
                    if same_text(members[i].0.as_str(), key) {
                        return Some(&members[i].1);
                    }
                    i += 1;
                }
                None
            },
            _ => None,
        }
    }

    /// The text, of a text.
    pub fn as_str(&self) -> (r: Option<&str>)
        ensures
            match r {
                Some(s) => self matches Json::Text(t) && t@ == s@,
                None => !(self is Text),
            },
    {
        match self {
            Json::Text(s) => Some(s.as_str()),
            _ => None,
        }
    }

    /// The number, of an unsigned integer.
    pub fn as_u64(&self) -> (r: Option<u64>)
        ensures
            match r {
                Some(v) => *self == Json::Unsigned(v),
                None => !(self is Unsigned),
            },
    {
        match self {
            Json::Unsigned(v) => Some(*v),
            _ => None,
        }
    }

    /// The items, of an array.
    pub fn as_array(&self) -> (r: Option<&Vec<Json>>)
        ensures
            match r {
                Some(v) => *self == Json::Array(*v),
                None => !(self is Array),
            },
    {
        match self {
            Json::Array(v) => Some(v),
            _ => None,
        }
    }
}

} // verus!
