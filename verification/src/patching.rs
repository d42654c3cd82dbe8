//! Patching component fields from the JSON body of an edit request.
//!
//! A field is patched only when the body names it; a value of the wrong
//! kind is refused with a message naming the field.
use vstd::prelude::*;
use crate::component::BodyType;

verus! {

/// A JSON number, by the integer it holds (a fraction keeps no value here).
#[derive(Clone, Copy, Debug, PartialEq, Eq, Structural)]
pub enum JsonNumber {
    PosInt(u64),
    NegInt(i64),
    Float,
}

/// A JSON value as the patch rules read it.
#[derive(Debug)]
pub enum JsonValue {
    Null,
    Bool(bool),
    Number(JsonNumber),
    String(String),
    Array(Vec<JsonValue>),
    /// Members in order; keys are distinct.
    Object(Vec<(String, JsonValue)>),
}

/// The value of the first member named `key` among `members`.
pub open spec fn member(members: Seq<(String, JsonValue)>, key: Seq<char>) -> Option<JsonValue>
    decreases members.len(),
{
    if members.len() == 0 {
        None
    } else if members[0].0@ == key {
        Some(members[0].1)
    } else {
        member(members.drop_first(), key)
    }
}

/// The member named `key` of an object (the first such); `None` for other values.
pub open spec fn json_get(body: JsonValue, key: Seq<char>) -> Option<JsonValue> {
    match body {
        JsonValue::Object(members) => member(members@, key),
        _ => None,
    }
}

/// The unsigned integer a value holds, if any.
pub open spec fn json_u64(v: JsonValue) -> Option<u64> {
    match v {
        JsonValue::Number(JsonNumber::PosInt(n)) => Some(n),
        _ => None,
    }
}

/// Why a field could not be patched.
#[derive(Clone, Debug, PartialEq, Eq)]
pub enum PatchError {
    NotBoolean(String),
    NotString(String),
    NotUnsigned(String),
    NotUnsignedOrNull(String),
    /// The field's value is above the largest it may hold (the second part).
    TooLarge(String, u64),
    /// `body_type` is not a string.
    BodyTypeNotString,
    /// `body_type` names no body type.
    UnknownBodyType,
}

/// The text of an error: the field's name and what it must be.
pub open spec fn message_spec(e: PatchError) -> Seq<char> {
    match e {
        PatchError::NotBoolean(k) => k@ + " must be a boolean"@,
        PatchError::NotString(k) => k@ + " must be a string"@,
        PatchError::NotUnsigned(k) => k@ + " must be an unsigned integer"@,
        PatchError::NotUnsignedOrNull(k) => k@ + " must be an unsigned integer or null"@,
        PatchError::TooLarge(k, max) => k@ + " must be <= "@ + (if max == 255 { "255"@ } else { "4294967295"@ }),
        PatchError::BodyTypeNotString => "body_type must be a string"@,
        PatchError::UnknownBodyType => "unknown body_type"@,
    }
}

impl PatchError {
    /// The text of the error (see `message_spec`).
    pub fn message(&self) -> (m: String)
        ensures
            m@ == message_spec(*self),
    {
        match self {
            PatchError::NotBoolean(k) => {
                let mut m = k.clone();
                m.append(" must be a boolean");
                m
            },
            PatchError::NotString(k) => {
                let mut m = k.clone();
                m.append(" must be a string");
                m
            },
            PatchError::NotUnsigned(k) => {
                let mut m = k.clone();
                m.append(" must be an unsigned integer");
                m
            },
            PatchError::NotUnsignedOrNull(k) => {
                let mut m = k.clone();
                m.append(" must be an unsigned integer or null");
                m
            },
            PatchError::TooLarge(k, max) => {
                let mut m = k.clone();
                m.append(" must be <= ");
                if *max == 255 {
                    m.append("255");
                } else {
                    m.append("4294967295");
                }
                m
            },
            PatchError::BodyTypeNotString => "body_type must be a string".to_owned(),
            PatchError::UnknownBodyType => "unknown body_type".to_owned(),
        }
    }
}

/// Whether two strings are equal.
pub(crate) fn str_eq(a: &str, b: &str) -> (r: bool)
    ensures
        r == (a@ == b@),
{
    a.to_owned() == b.to_owned()
}

/// The member named `key` of `body`, if any (see `json_get`).
pub fn get<'a>(body: &'a JsonValue, key: &str) -> (r: Option<&'a JsonValue>)
    ensures
        match r {
            Some(v) => json_get(*body, key@) == Some(*v),
            None => json_get(*body, key@) is None,
        },
{
    match body {
        JsonValue::Object(members) => {
            let mut i: usize = 0;
            assert(members@.skip(0) =~= members@);
            assert(json_get(*body, key@) == member(members@, key@));
            while i < members.len()
                invariant
                    json_get(*body, key@) == member(members@, key@),
                    i <= members@.len(),
                    member(members@, key@) == member(members@.skip(i as int), key@),
                decreases members@.len() - i,
            {
                let ghost rest = members@.skip(i as int);
                assert(rest[0] == members@[i as int]);
                if str_eq(members[i].0.as_str(), key) {
                    assert(rest.len() > 0 && rest[0].0@ == key@);
                    assert(member(rest, key@) == Some(rest[0].1));
                    let r = &members[i].1;
                    assert(*r == members@[i as int].1);
                    return Some(r);
                }
                assert(rest.drop_first() =~= members@.skip(i + 1));
                i = i + 1;
            }
            None
        },
        _ => None,
    }
}

/// Set `target` to the boolean the body gives for `key`, if it names `key`.
pub fn patch_bool(body: &JsonValue, key: &str, target: &mut bool) -> (r: Result<(), PatchError>)
    ensures
        match json_get(*body, key@) {
            None => r is Ok && *final(target) == *old(target),
            Some(JsonValue::Bool(b)) => r is Ok && *final(target) == b,
            Some(_) => r matches Err(PatchError::NotBoolean(k)) && k@ == key@ && *final(target) == *old(target),
        },
{
    match get(body, key) {
        None => Ok(()),
        Some(JsonValue::Bool(b)) => {
            *target = *b;
            Ok(())
        },
        Some(_) => Err(PatchError::NotBoolean(key.to_owned())),
    }
}

/// Set `target` to the string the body gives for `key`, if it names `key`.
pub fn patch_string(body: &JsonValue, key: &str, target: &mut String) -> (r: Result<(), PatchError>)
    ensures
        match json_get(*body, key@) {
            None => r is Ok && *final(target) == *old(target),
            Some(JsonValue::String(s)) => r is Ok && final(target)@ == s@,
            Some(_) => r matches Err(PatchError::NotString(k)) && k@ == key@ && *final(target) == *old(target),
        },
{
    match get(body, key) {
        None => Ok(()),
        Some(JsonValue::String(s)) => {
            *target = s.clone();
            Ok(())
        },
        Some(_) => Err(PatchError::NotString(key.to_owned())),
    }
}

/// The unsigned integer the body gives for `key`: `Ok(None)` when it does
/// not name `key`, an error when the value is no unsigned integer or is above `max`.
fn patch_unsigned(body: &JsonValue, key: &str, max: u64) -> (r: Result<Option<u64>, PatchError>)
    ensures
        match json_get(*body, key@) {
            None => r == Ok::<Option<u64>, PatchError>(None),
            Some(v) => match json_u64(v) {
                None => r matches Err(PatchError::NotUnsigned(k)) && k@ == key@,
                Some(n) => if n > max {
                    r matches Err(PatchError::TooLarge(k, m)) && k@ == key@ && m == max
                } else {
                    r == Ok::<Option<u64>, PatchError>(Some(n))
                },
            },
        },
{
    match get(body, key) {
        None => Ok(None),
        Some(JsonValue::Number(JsonNumber::PosInt(n))) => {
            if *n > max {
                Err(PatchError::TooLarge(key.to_owned(), max))
            } else {
                Ok(Some(*n))
            }
        },
        Some(_) => Err(PatchError::NotUnsigned(key.to_owned())),
    }
}

/// Set `target` to the unsigned integer (at most 255) the body gives for `key`.
pub fn patch_u8(body: &JsonValue, key: &str, target: &mut u8) -> (r: Result<(), PatchError>)
    ensures
        match json_get(*body, key@) {
            None => r is Ok && *final(target) == *old(target),
            Some(v) => match json_u64(v) {
                None => r matches Err(PatchError::NotUnsigned(k)) && k@ == key@ && *final(target) == *old(target),
                Some(n) => if n > 255 {
                    r matches Err(PatchError::TooLarge(k, m)) && k@ == key@ && m == 255 && *final(target) == *old(target)
                } else {
                    r is Ok && *final(target) == n
                },
            },
        },
{
    match patch_unsigned(body, key, 255) {
        Ok(Some(n)) => {
            *target = n as u8;
            Ok(())
        },
        Ok(None) => Ok(()),
        Err(e) => Err(e),
    }
}

/// Set `target` to the unsigned integer (at most `u32::MAX`) the body gives for `key`.
pub fn patch_u32(body: &JsonValue, key: &str, target: &mut u32) -> (r: Result<(), PatchError>)
    ensures
        match json_get(*body, key@) {
            None => r is Ok && *final(target) == *old(target),
            Some(v) => match json_u64(v) {
                None => r matches Err(PatchError::NotUnsigned(k)) && k@ == key@ && *final(target) == *old(target),
                Some(n) => if n > u32::MAX {
                    r matches Err(PatchError::TooLarge(k, m)) && k@ == key@ && m == u32::MAX && *final(target) == *old(target)
                } else {
                    r is Ok && *final(target) == n
                },
            },
        },
{
    match patch_unsigned(body, key, 4294967295) {
        Ok(Some(n)) => {
            *target = n as u32;
            Ok(())
        },
        Ok(None) => Ok(()),
        Err(e) => Err(e),
    }
}

/// Set the entity a camera follows: `null` clears it, an unsigned integer
/// names it.
pub fn patch_follow_entity(body: &JsonValue, key: &str, target: &mut Option<u64>) -> (r: Result<(), PatchError>)
    ensures
        match json_get(*body, key@) {
            None => r is Ok && *final(target) == *old(target),
            Some(JsonValue::Null) => r is Ok && *final(target) == None::<u64>,
            Some(v) => match json_u64(v) {
                Some(n) => r is Ok && *final(target) == Some(n),
                None => r matches Err(PatchError::NotUnsignedOrNull(k)) && k@ == key@ && *final(target) == *old(target),
            },
        },
{
    match get(body, key) {
        None => Ok(()),
        Some(JsonValue::Null) => {
            *target = None;
            Ok(())
        },
        Some(JsonValue::Number(JsonNumber::PosInt(n))) => {
            *target = Some(*n);
            Ok(())
        },
        Some(_) => Err(PatchError::NotUnsignedOrNull(key.to_owned())),
    }
}

/// Set a physics body's type from `body_type` (`Dynamic`, `Kinematic` or
/// `Fixed`), if the body names it.
pub fn patch_body_type(body: &JsonValue, target: &mut BodyType) -> (r: Result<(), PatchError>)
    ensures
        match json_get(*body, "body_type"@) {
            None => r is Ok && *final(target) == *old(target),
            Some(JsonValue::String(s)) => if s@ == "Dynamic"@ {
                r is Ok && *final(target) == BodyType::Dynamic
            } else if s@ == "Kinematic"@ {
                r is Ok && *final(target) == BodyType::Kinematic
            } else if s@ == "Fixed"@ {
                r is Ok && *final(target) == BodyType::Fixed
            } else {
                r == Err::<(), PatchError>(PatchError::UnknownBodyType) && *final(target) == *old(target)
            },
            Some(_) => r == Err::<(), PatchError>(PatchError::BodyTypeNotString) && *final(target) == *old(target),
        },
{
    match get(body, "body_type") {
        None => Ok(()),
        Some(JsonValue::String(s)) => {
            if str_eq(s.as_str(), "Dynamic") {
                *target = BodyType::Dynamic;
                Ok(())
            } else if str_eq(s.as_str(), "Kinematic") {
                *target = BodyType::Kinematic;
                Ok(())
            } else if str_eq(s.as_str(), "Fixed") {
                *target = BodyType::Fixed;
                Ok(())
            } else {
                Err(PatchError::UnknownBodyType)
            }
        },
        Some(_) => Err(PatchError::BodyTypeNotString),
    }
}

} // verus!
