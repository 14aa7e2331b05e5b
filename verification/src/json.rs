//! The JSON documents Rowly reads and writes (metadata sidecars and project manifests),
//! as plain values: what is read from them and what is written to them.

use vstd::prelude::*;

use crate::process::document::str_equal;

verus! {

/// A JSON number as Rowly reads it: a non-negative integer that fits `u64`, a negative
/// integer that fits `i64`, or any other number (whose value Rowly never reads).
#[derive(Debug, Clone, Copy, PartialEq, Eq, Structural)]
pub enum JsonNumber {
    PosInt(u64),
    NegInt(i64),
    Float,
}

/// A JSON value. An object keeps its members in order.
#[derive(Debug, PartialEq, Eq)]
pub enum JsonValue {
    Null,
    Bool(bool),
    Number(JsonNumber),
    String(String),
    Array(Vec<JsonValue>),
    Object(Vec<(String, JsonValue)>),
}

/// The value of the first member named `key`.
pub open spec fn member_value(members: Seq<(String, JsonValue)>, key: Seq<char>) -> Option<JsonValue>
    decreases members.len(),
{
    if members.len() == 0 {
        None
    } else if members[0].0@ == key {
        Some(members[0].1)
    } else {
        member_value(members.drop_first(), key)
    }
}

/// The member `key` of an object; nothing for any other value.
pub open spec fn json_field(value: JsonValue, key: Seq<char>) -> Option<JsonValue> {
    match value {
        JsonValue::Object(members) => member_value(members@, key),
        _ => None,
    }
}

/// A non-negative integer that fits `u64`.
pub open spec fn json_u64(value: Option<JsonValue>) -> Option<u64> {
    match value {
        Some(JsonValue::Number(JsonNumber::PosInt(n))) => Some(n),
        _ => None,
    }
}

/// A string's text.
pub open spec fn json_text(value: Option<JsonValue>) -> Option<Seq<char>> {
    match value {
        Some(JsonValue::String(text)) => Some(text@),
        _ => None,
    }
}

/// A boolean.
pub open spec fn json_flag(value: Option<JsonValue>) -> Option<bool> {
    match value {
        Some(JsonValue::Bool(flag)) => Some(flag),
        _ => None,
    }
}

/// An object's members.
pub open spec fn json_members(value: Option<JsonValue>) -> Option<Seq<(String, JsonValue)>> {
    match value {
        Some(JsonValue::Object(members)) => Some(members@),
        _ => None,
    }
}

/// An array's items.
pub open spec fn json_items(value: Option<JsonValue>) -> Option<Seq<JsonValue>> {
    match value {
        Some(JsonValue::Array(items)) => Some(items@),
        _ => None,
    }
}

/// The member `key` of `value`, when `value` is an object that has one.
pub fn field<'a>(value: &'a JsonValue, key: &str) -> (found: Option<&'a JsonValue>)
    ensures
        match found {
            Some(member) => json_field(*value, key@) == Some(*member),
            None => json_field(*value, key@) is None,
        },
{
    match value {
        JsonValue::Object(members) => {
            let mut index: usize = 0;
            assert(members@.skip(0) =~= members@);
            assert(json_field(*value, key@) == member_value(members@, key@));
            while index < members.len()
                invariant
                    index <= members@.len(),
                    json_field(*value, key@) == member_value(members@, key@),
                    member_value(members@, key@) == member_value(members@.skip(index as int), key@),
                decreases members@.len() - index,
            {
                proof {
                    let rest = members@.skip(index as int);
                    assert(rest[0] == members@[index as int]);
                    assert(rest.drop_first() =~= members@.skip(index + 1));
                }
                if str_equal(members[index].0.as_str(), key) {
                    assert(member_value(members@.skip(index as int), key@) == Some(members@[index as int].1));
                    return Some(&members[index].1);
                }
                index += 1;
            }
            proof {
                assert(members@.skip(index as int).len() == 0);
            }
            None
        },
        _ => None,
    }
}

/// The member `key` as a non-negative integer (`Value::get` then `Value::as_u64`).
pub fn u64_field(value: &JsonValue, key: &str) -> (n: Option<u64>)
    ensures
        n == json_u64(json_field(*value, key@)),
{
    match field(value, key) {
        Some(JsonValue::Number(JsonNumber::PosInt(n))) => Some(*n),
        _ => None,
    }
}

/// The member `key` as a string (`Value::get` then `Value::as_str`).
pub fn text_field<'a>(value: &'a JsonValue, key: &str) -> (text: Option<&'a String>)
    ensures
        match text {
            Some(s) => json_text(json_field(*value, key@)) == Some(s@),
            None => json_text(json_field(*value, key@)) is None,
        },
{
    match field(value, key) {
        Some(JsonValue::String(s)) => Some(s),
        _ => None,
    }
}

/// The member `key` as a boolean (`Value::get` then `Value::as_bool`).
pub fn flag_field(value: &JsonValue, key: &str) -> (flag: Option<bool>)
    ensures
        flag == json_flag(json_field(*value, key@)),
{
    match field(value, key) {
        Some(JsonValue::Bool(b)) => Some(*b),
        _ => None,
    }
}

/// The member `key` as an object (`Value::get` then `Value::as_object`).
pub fn members_field<'a>(value: &'a JsonValue, key: &str) -> (members: Option<
    &'a Vec<(String, JsonValue)>,
>)
    ensures
        match members {
            Some(m) => json_members(json_field(*value, key@)) == Some(m@),
            None => json_members(json_field(*value, key@)) is None,
        },
{
    match field(value, key) {
        Some(JsonValue::Object(m)) => Some(m),
        _ => None,
    }
}

/// The member `key` as an array (`Value::get` then `Value::as_array`).
pub fn items_field<'a>(value: &'a JsonValue, key: &str) -> (items: Option<&'a Vec<JsonValue>>)
    ensures
        match items {
            Some(v) => json_items(json_field(*value, key@)) == Some(v@),
            None => json_items(json_field(*value, key@)) is None,
        },
{
    match field(value, key) {
        Some(JsonValue::Array(v)) => Some(v),
        _ => None,
    }
}

/// A lower-case hexadecimal digit.
pub open spec fn hex_digit(d: int) -> char {
    if d < 10 {
        ('0' as int + d) as char
    } else {
        ('a' as int + d - 10) as char
    }
}

/// How `serde_json` writes one character inside a JSON string: `"` and `\` after a
/// backslash; backspace, tab, line feed, form feed and carriage return as `\b`, `\t`,
/// `\n`, `\f`, `\r`; the other characters below U+0020 as `\u00` and two lower-case hex
/// digits; every other character as itself.
pub open spec fn json_escape(c: char) -> Seq<char> {
    let n = c as int;
    if c == '"' {
        seq!['\\', '"']
    } else if c == '\\' {
        seq!['\\', '\\']
    } else if n == 8 {
        seq!['\\', 'b']
    } else if n == 9 {
        seq!['\\', 't']
    } else if n == 10 {
        seq!['\\', 'n']
    } else if n == 12 {
        seq!['\\', 'f']
    } else if n == 13 {
        seq!['\\', 'r']
    } else if n < 32 {
        seq!['\\', 'u', '0', '0', hex_digit(n / 16), hex_digit(n % 16)]
    } else {
        seq![c]
    }
}

/// The characters of `text`, each written as `json_escape` writes it.
pub open spec fn json_escaped(text: Seq<char>) -> Seq<char>
    decreases text.len(),
{
    if text.len() == 0 {
        Seq::empty()
    } else {
        json_escaped(text.drop_last()) + json_escape(text.last())
    }
}

/// The JSON text `serde_json::to_string` writes for a string: the string in quotes, its
/// characters escaped (see `json_escape`).
pub open spec fn json_string_text(text: Seq<char>) -> Seq<char> {
    seq!['"'] + json_escaped(text) + seq!['"']
}

/// The JSON text `serde_json::to_string` writes for an array of two strings: both in
/// brackets, separated by a comma, without spaces.
pub open spec fn json_pair_text(first: Seq<char>, second: Seq<char>) -> Seq<char> {
    seq!['['] + json_string_text(first) + seq![','] + json_string_text(second) + seq![']']
}

/// What `serde_json::from_str` reads from a text as a list of strings: the strings, or the
/// message of the error it reports.
pub uninterp spec fn json_string_list(text: Seq<char>) -> Result<Seq<Seq<char>>, Seq<char>>;

/// `serde_json::to_string` of a string: its JSON text (`json_string_text`). Writing a
/// string into the in-memory buffer that `to_string` uses does not fail.
#[verifier::external_body]
pub(crate) fn json_quote(text: &str) -> (result: Result<String, String>)
    ensures
        result is Ok,
        result matches Ok(quoted) ==> quoted@ == json_string_text(text@),
{
    match serde_json::to_string(text) {
        Ok(quoted) => Ok(quoted),
        Err(error) => Err(error.to_string()),
    }
}

/// `serde_json::to_string` of `[first, second]`: its JSON text (`json_pair_text`). Writing
/// two strings into the in-memory buffer that `to_string` uses does not fail.
#[verifier::external_body]
pub(crate) fn json_pair(first: &str, second: &str) -> (result: Result<String, String>)
    ensures
        result is Ok,
        result matches Ok(text) ==> text@ == json_pair_text(first@, second@),
{
    match serde_json::to_string(&[first, second]) {
        Ok(text) => Ok(text),
        Err(error) => Err(error.to_string()),
    }
}

/// `serde_json::from_str::<Vec<String>>`: the strings of a JSON array of strings, or the
/// message of the error it reports, as `json_string_list` names them.
#[verifier::external_body]
pub(crate) fn parse_json_strings(text: &str) -> (result: Result<Vec<String>, String>)
    ensures
        match result {
            Ok(items) => json_string_list(text@) == Ok::<Seq<Seq<char>>, Seq<char>>(
                items@.map_values(|item: String| item@),
            ),
            Err(message) => json_string_list(text@) == Err::<Seq<Seq<char>>, Seq<char>>(message@),
        },
{
    match serde_json::from_str::<Vec<String>>(text) {
        Ok(items) => Ok(items),
        Err(error) => Err(error.to_string()),
    }
}

} // verus!
