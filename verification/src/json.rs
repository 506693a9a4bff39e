//! The library's model of a parsed JSON document, as the facet tools print
//! it, with the accessors that the facet readers use.

use vstd::prelude::*;

use crate::model::{FloatReading, FloatReadingView};
use crate::text::str_eq;

verus! {

/// A JSON number, held by the two readings that the facet readers take of
/// it: as an unsigned integer (present only for a non-negative integer that
/// fits in `u64`) and as a double.
pub struct JsonNumber {
    /// The number as `u64`, when it is a non-negative integer in range.
    pub unsigned: Option<u64>,
    /// The number read as a double.
    pub reading: FloatReading,
}

/// A parsed JSON value. An object keeps its members in order; a lookup by
/// key finds the first member with that key.
pub enum JsonValue {
    Null,
    Bool(bool),
    Number(JsonNumber),
    String(String),
    Array(Vec<JsonValue>),
    Object(Vec<(String, JsonValue)>),
}

/// The member named `key` at or after position `i` of an object's members.
pub open spec fn lookup_from(members: Seq<(String, JsonValue)>, key: Seq<char>, i: int) -> Option<
    JsonValue,
>
    decreases members.len() - i,
{
    if 0 <= i < members.len() {
        if members[i].0@ == key {
            Some(members[i].1)
        } else {
            lookup_from(members, key, i + 1)
        }
    } else {
        None
    }
}

/// The value of member `key` of an object; nothing for any other value.
pub open spec fn json_get(v: JsonValue, key: Seq<char>) -> Option<JsonValue> {
    match v {
        JsonValue::Object(members) => lookup_from(members@, key, 0),
        _ => None,
    }
}

/// The characters of a JSON string.
pub open spec fn str_of(v: JsonValue) -> Option<Seq<char>> {
    match v {
        JsonValue::String(s) => Some(s@),
        _ => None,
    }
}

/// The value of a JSON boolean.
pub open spec fn bool_of(v: JsonValue) -> Option<bool> {
    match v {
        JsonValue::Bool(b) => Some(b),
        _ => None,
    }
}

/// A JSON number read as `u64`.
pub open spec fn u64_of(v: JsonValue) -> Option<u64> {
    match v {
        JsonValue::Number(n) => n.unsigned,
        _ => None,
    }
}

/// A JSON number read as a double.
pub open spec fn float_of(v: JsonValue) -> Option<FloatReadingView> {
    match v {
        JsonValue::Number(n) => Some(n.reading@),
        _ => None,
    }
}

/// The items of a JSON array.
pub open spec fn array_of(v: JsonValue) -> Option<Seq<JsonValue>> {
    match v {
        JsonValue::Array(items) => Some(items@),
        _ => None,
    }
}

/// Member `key` of `v`, read as a string.
pub open spec fn field_str(v: JsonValue, key: Seq<char>) -> Option<Seq<char>> {
    match json_get(v, key) {
        Some(x) => str_of(x),
        None => None,
    }
}

/// Member `key` of `v`, read as a boolean.
pub open spec fn field_bool(v: JsonValue, key: Seq<char>) -> Option<bool> {
    match json_get(v, key) {
        Some(x) => bool_of(x),
        None => None,
    }
}

/// Member `key` of `v`, read as `u64`.
pub open spec fn field_u64(v: JsonValue, key: Seq<char>) -> Option<u64> {
    match json_get(v, key) {
        Some(x) => u64_of(x),
        None => None,
    }
}

/// Member `key` of `v`, read as a double.
pub open spec fn field_float(v: JsonValue, key: Seq<char>) -> Option<FloatReadingView> {
    match json_get(v, key) {
        Some(x) => float_of(x),
        None => None,
    }
}

/// Member `key` of `v`, read as an array.
pub open spec fn field_array(v: JsonValue, key: Seq<char>) -> Option<Seq<JsonValue>> {
    match json_get(v, key) {
        Some(x) => array_of(x),
        None => None,
    }
}

impl JsonValue {
    /// The value of member `key` if this is an object that has one.
    pub fn get(&self, key: &str) -> (r: Option<&JsonValue>)
        ensures
            match r {
                Some(x) => json_get(*self, key@) == Some(*x),
                None => json_get(*self, key@) is None,
            },
            !(*self is Object) ==> r is None,
            *self matches JsonValue::Object(members) ==> match r {
                Some(x) => exists|i: int|
                    0 <= i < members@.len() && (#[trigger] members@[i]).0@ == key@ && *x
                        == members@[i].1 && forall|j: int|
                        0 <= j < i ==> (#[trigger] members@[j]).0@ != key@,
                None => forall|i: int| 0 <= i < members@.len() ==> (#[trigger] members@[i]).0@ != key@,
            },
    {
        match self {
            JsonValue::Object(members) => {
                let mut i: usize = 0;
                while i < members.len()
                    invariant
                        i <= members.len(),
                        *self == JsonValue::Object(*members),
                        lookup_from(members@, key@, 0) == lookup_from(members@, key@, i as int),
                        forall|j: int| 0 <= j < i ==> (#[trigger] members@[j]).0@ != key@,
                    decreases members.len() - i,
                {
                    if str_eq(members[i].0.as_str(), key) {
                        assert(members@[i as int].0@ == key@);
                        return Some(&members[i].1);
                    }
                    i += 1;
                }
                None
            },
            _ => None,
        }
    }

    /// The string, if this is a JSON string.
    pub fn as_str(&self) -> (r: Option<&String>)
        ensures
            match r {
                Some(s) => str_of(*self) == Some(s@),
                None => str_of(*self) is None,
            },
    {
        match self {
            JsonValue::String(s) => Some(s),
            _ => None,
        }
    }

    /// The boolean, if this is a JSON boolean.
    pub fn as_bool(&self) -> (r: Option<bool>)
        ensures
            r == bool_of(*self),
    {
        match self {
            JsonValue::Bool(b) => Some(*b),
            _ => None,
        }
    }

    /// The number as `u64`, if this is a non-negative integer in range.
    pub fn as_u64(&self) -> (r: Option<u64>)
        ensures
            r == u64_of(*self),
    {
        match self {
            JsonValue::Number(n) => n.unsigned,
            _ => None,
        }
    }

    /// The number read as a double, if this is a number.
    pub fn as_float(&self) -> (r: Option<&FloatReading>)
        ensures
            match r {
                Some(f) => float_of(*self) == Some(f@),
                None => float_of(*self) is None,
            },
    {
        match self {
            JsonValue::Number(n) => Some(&n.reading),
            _ => None,
        }
    }

    /// The items, if this is a JSON array.
    pub fn as_array(&self) -> (r: Option<&Vec<JsonValue>>)
        ensures
            match r {
                Some(items) => array_of(*self) == Some(items@),
                None => array_of(*self) is None,
            },
    {
        match self {
            JsonValue::Array(items) => Some(items),
            _ => None,
        }
    }
}

/// A member lookup finds the first member with the key, and nothing when
/// no member has it; a value other than an object has no members.
pub proof fn lemma_json_get(v: JsonValue, key: Seq<char>)
    ensures
        !(v is Object) ==> json_get(v, key) is None,
        v matches JsonValue::Object(members) ==> {
            &&& (forall|i: int| 0 <= i < members@.len() ==> (#[trigger] members@[i]).0@ != key)
                ==> json_get(v, key) is None
            &&& forall|i: int|
                0 <= i < members@.len() && (#[trigger] members@[i]).0@ == key && (forall|j: int|
                    0 <= j < i ==> (#[trigger] members@[j]).0@ != key) ==> json_get(v, key) == Some(
                    members@[i].1,
                )
        },
{
    if let JsonValue::Object(members) = v {
        lemma_lookup_from(members@, key, 0);
    }
}

proof fn lemma_lookup_from(members: Seq<(String, JsonValue)>, key: Seq<char>, start: int)
    requires
        0 <= start <= members.len(),
    ensures
        (forall|i: int| start <= i < members.len() ==> (#[trigger] members[i]).0@ != key)
            ==> lookup_from(members, key, start) is None,
        forall|i: int|
            start <= i < members.len() && (#[trigger] members[i]).0@ == key && (forall|j: int|
                start <= j < i ==> (#[trigger] members[j]).0@ != key) ==> lookup_from(
                members,
                key,
                start,
            ) == Some(members[i].1),
    decreases members.len() - start,
{
    if start < members.len() {
        lemma_lookup_from(members, key, start + 1);
    }
}

} // verus!
