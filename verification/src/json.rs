//! A plain model of a JSON document: what the library reads from saved files
//! and what property blocks carry as per-kind payloads. Arrays and objects are
//! linked lists so that a value is an ordinary algebraic datatype.

use vstd::prelude::*;

verus! {

/// A JSON number as the decoder classified it. Non-integral numbers keep
/// their decimal text: the library never computes with them.
#[derive(Debug, PartialEq, Eq)]
pub enum JsonNumber {
    PosInt(u64),
    NegInt(i64),
    Float(String),
}

/// One JSON value.
#[derive(Debug, PartialEq, Eq)]
pub enum JsonValue {
    Null,
    Bool(bool),
    Number(JsonNumber),
    String(String),
    Array(JsonList),
    Object(JsonMembers),
}

/// The items of a JSON array, first item first.
#[derive(Debug, PartialEq, Eq)]
pub enum JsonList {
    Nil,
    Cons(Box<JsonValue>, Box<JsonList>),
}

/// The members of a JSON object, in document order.
#[derive(Debug, PartialEq, Eq)]
pub enum JsonMembers {
    Nil,
    Cons(String, Box<JsonValue>, Box<JsonMembers>),
}

impl JsonNumber {
    pub fn copy(&self) -> (r: JsonNumber)
        ensures
            r == *self,
    {
        match self {
            JsonNumber::PosInt(n) => JsonNumber::PosInt(*n),
            JsonNumber::NegInt(n) => JsonNumber::NegInt(*n),
            JsonNumber::Float(t) => JsonNumber::Float(t.clone()),
        }
    }
}

impl JsonValue {
    /// A deep copy of the value.
    pub fn copy(&self) -> (r: JsonValue)
        ensures
            r == *self,
        decreases self,
    {
        match self {
            JsonValue::Null => JsonValue::Null,
            JsonValue::Bool(b) => JsonValue::Bool(*b),
            JsonValue::Number(n) => JsonValue::Number(n.copy()),
            JsonValue::String(s) => JsonValue::String(s.clone()),
            JsonValue::Array(items) => JsonValue::Array(items.copy()),
            JsonValue::Object(members) => JsonValue::Object(members.copy()),
        }
    }
}

impl JsonList {
    /// A deep copy of the list.
    pub fn copy(&self) -> (r: JsonList)
        ensures
            r == *self,
        decreases self,
    {
        match self {
            JsonList::Nil => JsonList::Nil,
            JsonList::Cons(head, tail) => {
                let h = head.copy();
                let t = tail.copy();
                JsonList::Cons(Box::new(h), Box::new(t))
            },
        }
    }
}

impl JsonMembers {
    /// A deep copy of the members.
    pub fn copy(&self) -> (r: JsonMembers)
        ensures
            r == *self,
        decreases self,
    {
        match self {
            JsonMembers::Nil => JsonMembers::Nil,
            JsonMembers::Cons(key, value, rest) => {
                let v = value.copy();
                let t = rest.copy();
                JsonMembers::Cons(key.clone(), Box::new(v), Box::new(t))
            },
        }
    }
}

impl Clone for JsonValue {
    fn clone(&self) -> (r: JsonValue)
        ensures
            r == *self,
    {
        self.copy()
    }
}

impl Clone for JsonNumber {
    fn clone(&self) -> (r: JsonNumber)
        ensures
            r == *self,
    {
        self.copy()
    }
}

impl Clone for JsonList {
    fn clone(&self) -> (r: JsonList)
        ensures
            r == *self,
    {
        self.copy()
    }
}

impl Clone for JsonMembers {
    fn clone(&self) -> (r: JsonMembers)
        ensures
            r == *self,
    {
        self.copy()
    }
}

/// The value of the first member named `key`.
pub open spec fn member_spec(m: JsonMembers, key: Seq<char>) -> Option<JsonValue>
    decreases m,
{
    match m {
        JsonMembers::Nil => None,
        JsonMembers::Cons(k, v, rest) => if k@ == key { Some(*v) } else { member_spec(*rest, key) },
    }
}

/// What `value.get(key)` reads: a member of an object, nothing otherwise.
pub open spec fn get_spec(value: JsonValue, key: Seq<char>) -> Option<JsonValue> {
    match value {
        JsonValue::Object(m) => member_spec(m, key),
        _ => None,
    }
}

/// The text of a string value.
pub open spec fn as_str_spec(value: Option<JsonValue>) -> Option<Seq<char>> {
    match value {
        Some(JsonValue::String(s)) => Some(s@),
        _ => None,
    }
}

/// The value of a non-negative integer number.
pub open spec fn as_u64_spec(value: Option<JsonValue>) -> Option<u64> {
    match value {
        Some(JsonValue::Number(JsonNumber::PosInt(n))) => Some(n),
        Some(JsonValue::Number(JsonNumber::NegInt(n))) => if n >= 0 { Some(n as u64) } else { None },
        _ => None,
    }
}

/// The value of an integer number that fits `i64`.
pub open spec fn as_i64_spec(value: Option<JsonValue>) -> Option<i64> {
    match value {
        Some(JsonValue::Number(JsonNumber::PosInt(n))) => if n <= i64::MAX { Some(n as i64) } else { None },
        Some(JsonValue::Number(JsonNumber::NegInt(n))) => Some(n),
        _ => None,
    }
}

pub fn member<'a>(m: &'a JsonMembers, key: &str) -> (r: Option<&'a JsonValue>)
    ensures
        match r {
            Some(v) => member_spec(*m, key@) == Some(*v),
            None => member_spec(*m, key@) is None,
        },
    decreases m,
{
    match m {
        JsonMembers::Nil => None,
        JsonMembers::Cons(k, v, rest) => {
            if crate::text::str_eq(k.as_str(), key) {
                Some(&**v)
            } else {
                member(&**rest, key)
            }
        },
    }
}

impl JsonValue {
    /// The member `key` of an object value.
    pub fn get(&self, key: &str) -> (r: Option<&JsonValue>)
        ensures
            match r {
                Some(v) => get_spec(*self, key@) == Some(*v),
                None => get_spec(*self, key@) is None,
            },
    {
        match self {
            JsonValue::Object(m) => member(m, key),
            _ => None,
        }
    }
}

pub fn as_str(value: Option<&JsonValue>) -> (r: Option<&str>)
    ensures
        match r {
            Some(t) => as_str_spec(match value { Some(v) => Some(*v), None => None }) == Some(t@),
            None => as_str_spec(match value { Some(v) => Some(*v), None => None }) is None,
        },
{
    match value {
        Some(JsonValue::String(s)) => Some(s.as_str()),
        _ => None,
    }
}

pub fn as_u64(value: Option<&JsonValue>) -> (r: Option<u64>)
    ensures
        r == as_u64_spec(match value { Some(v) => Some(*v), None => None }),
{
    match value {
        Some(JsonValue::Number(JsonNumber::PosInt(n))) => Some(*n),
        Some(JsonValue::Number(JsonNumber::NegInt(n))) => if *n >= 0 { Some(*n as u64) } else { None },
        _ => None,
    }
}

pub fn as_i64(value: Option<&JsonValue>) -> (r: Option<i64>)
    ensures
        r == as_i64_spec(match value { Some(v) => Some(*v), None => None }),
{
    match value {
        Some(JsonValue::Number(JsonNumber::PosInt(n))) => if *n <= 9223372036854775807u64 { Some(*n as i64) } else { None },
        Some(JsonValue::Number(JsonNumber::NegInt(n))) => Some(*n),
        _ => None,
    }
}

} // verus!
