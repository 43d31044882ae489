//! JSON values as the claim parser reads them, parsed by `serde_json`.
use vstd::prelude::*;
use serde_json::{Number, Value};

verus! {

#[verifier::external_type_specification]
#[verifier::external_body]
pub struct ExJsonValue(Value);

#[verifier::external_type_specification]
#[verifier::external_body]
pub struct ExJsonNumber(Number);

/// A JSON number, by the kind `serde_json` stores it as.
#[derive(Debug, Clone, Copy, PartialEq, Eq, Structural)]
pub enum JsonNumber {
    /// A non-negative integer (`Number::as_u64` is `Some`).
    Unsigned(u64),
    /// A negative integer.
    Signed(i64),
    /// A number stored as a float, carried as the IEEE 754 bits of its
    /// `as_f64` (`None` when there is none).
    Float(Option<u64>),
}

/// The integer an IEEE 754 double with bits `bits` holds, when it holds one:
/// its sign and its magnitude, saturated at `u64::MAX`. Infinities, NaN and
/// anything with a fractional part hold none; zero of either sign is zero.
pub open spec fn f64_integral(bits: u64) -> Option<(bool, u64)> {
    let neg = (bits >> 63u64) == 1u64;
    let exp = (bits >> 52u64) & 0x7ffu64;
    let frac = bits & 0xfffffffffffffu64;
    if exp == 0x7ffu64 {
        None
    } else if exp == 0 {
        if frac == 0 {
            Some((neg, 0u64))
        } else {
            None
        }
    } else if exp < 1023 {
        None
    } else if exp >= 1087 {
        Some((neg, u64::MAX))
    } else {
        let m = frac | 0x10000000000000u64;
        if exp >= 1075 {
            Some((neg, m << ((exp - 1075) as u64)))
        } else {
            let s = (1075 - exp) as u64;
            if m & (u64::MAX >> ((64 - s) as u64)) == 0 {
                Some((neg, m >> s))
            } else {
                None
            }
        }
    }
}

/// The integer a double holds (see `f64_integral`).
pub fn integral_of_bits(bits: u64) -> (r: Option<(bool, u64)>)
    ensures
        r == f64_integral(bits),
{
    let neg = (bits >> 63u64) == 1u64;
    let exp = (bits >> 52u64) & 0x7ffu64;
    let frac = bits & 0xfffffffffffffu64;
    assert(exp <= 0x7ff) by (bit_vector)
        requires
            exp == (bits >> 52u64) & 0x7ffu64,
    ;
    if exp == 0x7ffu64 {
        None
    } else if exp == 0 {
        if frac == 0 {
            Some((neg, 0u64))
        } else {
            None
        }
    } else if exp < 1023 {
        None
    } else if exp >= 1087 {
        Some((neg, u64::MAX))
    } else {
        let m = frac | 0x10000000000000u64;
        if exp >= 1075 {
            Some((neg, m << ((exp - 1075) as u64)))
        } else {
            let s = (1075 - exp) as u64;
            if m & (u64::MAX >> ((64 - s) as u64)) == 0 {
                Some((neg, m >> s))
            } else {
                None
            }
        }
    }
}

/// A JSON value. Object members keep `serde_json`'s iteration order, and keys
/// are distinct.
#[derive(Debug)]
pub enum JsonValue {
    Null,
    Bool(bool),
    Number(JsonNumber),
    Str(String),
    Array(Vec<JsonValue>),
    Object(Vec<(String, JsonValue)>),
}

/// What `serde_json::from_str::<Vec<serde_json::Value>>` makes of a text:
/// the elements of the JSON array it holds, or nothing when it is not one.
pub uninterp spec fn json_array_of(text: Seq<char>) -> Option<Seq<JsonValue>>;

/// Converts a `serde_json::Number` by the kind it is stored as: its `as_u64`
/// when that is `Some`, else its `as_i64`, else the bits of its `as_f64`.
#[verifier::external_body]
fn json_number_of(n: Number) -> JsonNumber {
    match (n.as_u64(), n.as_i64(), n.as_f64()) {
        (Some(u), _, _) => JsonNumber::Unsigned(u),
        (None, Some(i), _) => JsonNumber::Signed(i),
        (None, None, Some(f)) => JsonNumber::Float(Some(f.to_bits())),
        (None, None, None) => JsonNumber::Float(None),
    }
}

/// Converts one `serde_json::Value`, variant for variant.
#[verifier::external_body]
fn json_value_of(v: Value) -> JsonValue {
    match v {
        Value::Null => JsonValue::Null,
        Value::Bool(b) => JsonValue::Bool(b),
        Value::Number(n) => JsonValue::Number(json_number_of(n)),
        Value::String(s) => JsonValue::Str(s),
        Value::Array(a) => JsonValue::Array(a.into_iter().map(json_value_of).collect()),
        Value::Object(m) => JsonValue::Object(m.into_iter().map(|(k, x)| (k, json_value_of(x))).collect()),
    }
}

/// `serde_json::from_str::<Vec<serde_json::Value>>`: the elements of the JSON
/// array `text` holds, or `None` when it is not exactly one JSON array.
#[verifier::external_body]
pub(crate) fn parse_json_array(text: &str) -> (r: Option<Vec<JsonValue>>)
    ensures
        match r {
            Some(v) => json_array_of(text@) == Some(v@),
            None => json_array_of(text@) is None,
        },
{
    serde_json::from_str::<Vec<serde_json::Value>>(text).ok().map(|v| v.into_iter().map(json_value_of).collect())
}

/// What `serde_json::from_str::<serde_json::Value>` makes of a text: the
/// JSON value it holds, or nothing when it is not exactly one JSON value.
pub uninterp spec fn json_value_at(text: Seq<char>) -> Option<JsonValue>;

/// `serde_json::from_str::<serde_json::Value>`: the JSON value `text` holds,
/// or `None` when it is not exactly one JSON value.
#[verifier::external_body]
pub(crate) fn parse_json_value(text: &str) -> (r: Option<JsonValue>)
    ensures
        r == json_value_at(text@),
{
    serde_json::from_str::<Value>(text).ok().map(json_value_of)
}

/// The value of the first member named `key`.
pub open spec fn member(fields: Seq<(String, JsonValue)>, key: Seq<char>) -> Option<JsonValue>
    decreases fields.len(),
{
    if fields.len() == 0 {
        None
    } else if fields[0].0@ == key {
        Some(fields[0].1)
    } else {
        member(fields.drop_first(), key)
    }
}

/// `Value::get(key)` on an object; nothing on any other value.
pub open spec fn get(v: JsonValue, key: Seq<char>) -> Option<JsonValue> {
    match v {
        JsonValue::Object(fields) => member(fields@, key),
        _ => None,
    }
}

/// `Value::as_str` of an optional value.
pub open spec fn str_of(v: Option<JsonValue>) -> Option<Seq<char>> {
    match v {
        Some(JsonValue::Str(s)) => Some(s@),
        _ => None,
    }
}

/// The member named `key` of an object.
pub fn get_member<'a>(v: &'a JsonValue, key: &str) -> (r: Option<&'a JsonValue>)
    ensures
        match r {
            Some(x) => get(*v, key@) == Some(*x),
            None => get(*v, key@) is None,
        },
{
    match v {
        JsonValue::Object(fields) => {
            let mut i: usize = 0;
            assert(fields@.skip(0) =~= fields@);
            while i < fields.len()
                invariant
                    i <= fields@.len(),
                    get(*v, key@) == member(fields@, key@),
                    member(fields@, key@) == member(fields@.skip(i as int), key@),
                decreases fields.len() - i,
            {
                assert(fields@.skip(i as int).drop_first() =~= fields@.skip(i + 1));
                assert(fields@.skip(i as int)[0] == fields@[i as int]);
                if crate::text::str_eq(fields[i].0.as_str(), key) {
                    return Some(&fields[i].1);
                }
                i = i + 1;
            }
            None
        },
        _ => None,
    }
}

/// `get(key)` followed by `as_str`.
pub fn get_str<'a>(v: &'a JsonValue, key: &str) -> (r: Option<&'a str>)
    ensures
        match r {
            Some(s) => str_of(get(*v, key@)) == Some(s@),
            None => str_of(get(*v, key@)) is None,
        },
{
    match get_member(v, key) {
        Some(JsonValue::Str(s)) => Some(s.as_str()),
        _ => None,
    }
}

} // verus!
