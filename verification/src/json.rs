//! A JSON document as plain values: what the library reads of Home
//! Assistant's payloads (entity attributes, Lovelace dashboard configs).
use vstd::prelude::*;
use crate::text::str_eq;

verus! {

/// A JSON number, kept as what the library reads of it: its value when it
/// is a non-negative integer that fits in `u64`, and its text.
#[derive(Debug, PartialEq)]
pub struct JsonNumber {
    pub as_u64: Option<u64>,
    pub text: String,
}

/// A JSON value. Object members keep their document order.
#[derive(Debug, PartialEq)]
pub enum Json {
    Null,
    Bool(bool),
    Number(JsonNumber),
    Str(String),
    Array(Vec<Json>),
    Object(Vec<(String, Json)>),
}

/// The value of the last member named `key`, if any: a later member of
/// the same name replaces an earlier one, as when a JSON parser fills a map.
pub open spec fn members_get(members: Seq<(String, Json)>, key: Seq<char>) -> Option<Json>
    decreases members.len(),
{
    if members.len() == 0 {
        None
    } else if members.last().0@ == key {
        Some(members.last().1)
    } else {
        members_get(members.drop_last(), key)
    }
}

impl Json {
    /// Member `key` of an object; `None` for a missing member or a non-object.
    pub open spec fn spec_get(self, key: Seq<char>) -> Option<Json> {
        match self {
            Json::Object(members) => members_get(members@, key),
            _ => None,
        }
    }

    pub open spec fn spec_as_str(self) -> Option<Seq<char>> {
        match self {
            Json::Str(s) => Some(s@),
            _ => None,
        }
    }

    pub open spec fn spec_as_u64(self) -> Option<u64> {
        match self {
            Json::Number(n) => n.as_u64,
            _ => None,
        }
    }

    /// The member `key` of an object, as `serde_json::Value::get` gives it.
    pub fn get(&self, key: &str) -> (r: Option<&Json>)
        ensures
            r is Some <==> self.spec_get(key@) is Some,
            r matches Some(v) ==> self.spec_get(key@) == Some(*v),
    {
        match self {
            Json::Object(members) => Json::get_member(members, key),
            _ => None,
        }
    }

    /// The member `key` of an object's member list.
    pub fn get_member<'a>(members: &'a Vec<(String, Json)>, key: &str) -> (r: Option<&'a Json>)
        ensures
            r is Some <==> members_get(members@, key@) is Some,
            r matches Some(v) ==> members_get(members@, key@) == Some(*v),
    {
        let mut i = members.len();
        assert(members@.take(i as int) =~= members@);
        while i > 0
            invariant
                i <= members.len(),
                members_get(members@, key@) == members_get(members@.take(i as int), key@),
            decreases i,
        {
            proof {
                assert(members@.take(i as int).drop_last() =~= members@.take(i - 1));
            }
            if str_eq(members[i - 1].0.as_str(), key) {
                return Some(&members[i - 1].1);
            }
            i = i - 1;
        }
        None
    }

    /// The text of a JSON string.
    pub fn as_str(&self) -> (r: Option<&str>)
        ensures
            r matches Some(s) ==> self.spec_as_str() == Some(s@),
            r is None <==> self.spec_as_str() is None,
    {
        match self {
            Json::Str(s) => Some(s.as_str()),
            _ => None,
        }
    }

    /// A non-negative integer that fits in `u64`.
    pub fn as_u64(&self) -> (r: Option<u64>)
        ensures
            r == self.spec_as_u64(),
    {
        match self {
            Json::Number(n) => n.as_u64,
            _ => None,
        }
    }
}

} // verus!
